use vstd::prelude::*;

use core::ops::Not;

use crate::bitboard::square::Square;
use crate::bitboard::{strictly_increasing, Bitboard};
use crate::board::color::Color;
use crate::board::moves::move_fits;
use crate::bits::{popcount, single};
use crate::board::attacks::pin_check_for;
use crate::board::piece::{ColoredPiece, Piece};
use crate::board::{Board, EnPassant, PinCheckState};
use crate::board::attacks::{attacked_by, king_square_of};
use crate::lookup::{between_target, bishop_target, direction_of, king_target, knight_target, on_ray, pawn_attack_target, pawn_push_target, rook_target};
use vstd::std_specs::bits::u64_trailing_zeros;

use super::listing::{
    castlings_listed, en_passants_listed, extends, king_steps_listed, lemma_castling_kept, lemma_en_passant_kept,
    lemma_listed_kept, lemma_listed_through, lemma_lists_kept, lemma_nothing_but_king, lemma_piece_moves_kept, listed,
    lists_castling, lists_en_passant, lists_step, moves_listed, pawn_listed, piece_moves_listed, step_of,
};
use super::mov::Move;

verus! {

pub const MAX_MOVES: usize = 256;

/// Whether the side to move is in check, as a type.
pub trait CheckType {
    const IN_CHECK: bool;
}

/// The side to move is in check (by a single piece).
pub struct InCheck;

impl CheckType for InCheck {
    const IN_CHECK: bool = true;
}

/// The side to move is not in check.
pub struct NotInCheck;

impl CheckType for NotInCheck {
    const IN_CHECK: bool = false;
}


/// The pieces a pawn may promote to: a queen, a rook, a bishop or a knight.
pub open spec fn promotion_choice(p: Piece) -> bool {
    p == Piece::Queen || p == Piece::Rook || p == Piece::Bishop || p == Piece::Knight
}

/// A move the generator may hand out for `board`: it can be played by the side to move on
/// the board's squares; only a pawn promotes (to a queen, rook, bishop or knight, and always
/// when it steps onto the last rank, never when it takes en passant) or takes en passant; only
/// the king castles; any other capture takes on the target square; the king
/// only goes to, or passes over when castling, squares the other side does not attack; the
/// other pieces keep to the pins and checks; and each move is one its piece can make.
pub open spec fn generated_ok(board: Board, m: Move) -> bool {
    &&& move_fits(board.pieces@, m, board.gamestate.active)
    &&& m.spec_is_promotion() ==> m.spec_piece() == Piece::Pawn && promotion_choice(m.spec_promoted())
    &&& m.spec_piece() == Piece::Pawn && !m.spec_is_en_passant() ==> (m.spec_is_promotion() <==> (m.spec_to() / 8 == 0
        || m.spec_to() / 8 == 7))
    &&& m.spec_is_en_passant() ==> m.spec_piece() == Piece::Pawn && !m.spec_is_promotion()
    &&& m.spec_is_capture() && !m.spec_is_en_passant() ==> m.spec_capture_square() == m.spec_to()
    &&& king_safe(board, m)
    &&& pins_checks_ok(board, m)
    &&& m.spec_is_castling() ==> m.spec_piece() == Piece::King && castling_allowed(board, m.spec_from() as int, m.spec_to() as int)
    &&& m.spec_is_en_passant() ==> en_passant_allowed(board, m)
    &&& !m.spec_is_castling() && !m.spec_is_en_passant() ==> pseudo_target(
        board,
        m.spec_piece(),
        m.spec_from() as int,
        board.occupied.0,
        m.spec_to() as int,
    )
}

/// The side to move keeps the right to castle with its king going to `to`.
pub open spec fn castling_right(board: Board, to: int) -> bool {
    let g = board.gamestate;
    ||| to == 2 && g.active == Color::White && g.white_queenside
    ||| to == 6 && g.active == Color::White && g.white_kingside
    ||| to == 58 && g.active == Color::Black && g.black_queenside
    ||| to == 62 && g.active == Color::Black && g.black_kingside
}

/// Castling of the king from `from` to `to` is allowed: the side to move has the right, its
/// king starts from its first square, it is not in check, and the way is open.
pub open spec fn castling_allowed(board: Board, from: int, to: int) -> bool {
    &&& castling_right(board, to)
    &&& from == (if board.gamestate.active == Color::White { 4int } else { 60int })
    &&& pin_check_for(board, board.gamestate.active).checkers.0 == 0
    &&& castling_open(board, from, to, crate::board::moves::rook_from(to))
}

/// The en passant capture `m` is the one the last double step allows: it goes to the square
/// the pawn passed and takes that pawn, from a square beside it. The pawn must stand on its
/// square and the square passed must be empty: an en passant square from a FEN text with no
/// such pawn behind it gives no move.
pub open spec fn en_passant_allowed(board: Board, m: Move) -> bool {
    let from = m.spec_from() as int;
    let c = m.spec_capture_square() as int;
    &&& board.gamestate.en_passant matches Some(ep) && ep.to_move.index == m.spec_to() && ep.to_capture.index == c
    &&& from / 8 == c / 8
    &&& (from % 8 == c % 8 - 1 || from % 8 == c % 8 + 1)
    &&& board.pieces@[m.spec_to() as int] is None
}

/// Against a check on the king of the side to move, `to` ends it: there is a single checker
/// and `to` is its square or lies between it and the king.
pub open spec fn ends_check(board: Board, to: int) -> bool {
    let a = board.gamestate.active;
    let checkers = pin_check_for(board, a).checkers.0;
    let c = u64_trailing_zeros(checkers) as int;
    checkers != 0 ==> popcount(checkers) == 1 && (to == c || between_target(c, king_square_of(board, a), to))
}

/// A step from `from` to `to` of a piece other than the king respects the pins and checks on
/// the king of the side to move: a pinned piece moves only when there is no check, and only
/// along the line from the king through it; a check is ended.
pub open spec fn step_ok(board: Board, from: int, to: int) -> bool {
    let a = board.gamestate.active;
    let st = pin_check_for(board, a);
    let k = king_square_of(board, a);
    &&& st.pinned.has(from) ==> st.checkers.0 == 0 && on_ray(k, direction_of(k, from), to)
    &&& ends_check(board, to)
}

/// With the pawns gone from `from` and `captured` and one standing on `to`, no bishop, rook or
/// queen of the other side sees the king of the side to move along an open line.
pub open spec fn en_passant_clear(board: Board, from: int, captured: int, to: int) -> bool {
    let a = board.gamestate.active;
    let other = a.opposite();
    let k = king_square_of(board, a);
    let occ = ((board.occupied.0 ^ single(from as u64)) ^ single(captured as u64)) ^ single(to as u64);
    let queens = board.piece_board(other, Piece::Queen);
    forall|p: int|
        #![trigger bishop_target(k, occ, p)]
        #![trigger rook_target(k, occ, p)]
        0 <= p < 64 ==> {
            &&& !(bishop_target(k, occ, p) && (board.piece_board(other, Piece::Bishop).has(p) || queens.has(p)))
            &&& !(rook_target(k, occ, p) && (board.piece_board(other, Piece::Rook).has(p) || queens.has(p)))
        }
}

/// A move of a piece other than the king keeps to the pins and checks; an en passant capture
/// is made against at most one checker and opens no line onto the king.
pub open spec fn pins_checks_ok(board: Board, m: Move) -> bool {
    &&& m.spec_piece() != Piece::King && !m.spec_is_en_passant() ==> step_ok(board, m.spec_from() as int, m.spec_to() as int)
    &&& m.spec_is_en_passant() ==> {
        &&& popcount(pin_check_for(board, board.gamestate.active).checkers.0) <= 1
        &&& en_passant_clear(board, m.spec_from() as int, m.spec_capture_square() as int, m.spec_to() as int)
    }
}

/// Square `j` is attacked by the side not to move, with the king of the side to move taken
/// off the board (so that it cannot hide behind itself from a slider).
pub open spec fn king_danger(board: Board, j: int) -> bool {
    let a = board.gamestate.active;
    attacked_by(board, a.opposite(), board.occupied.0 ^ board.piece_board(a, Piece::King).0, j)
}

/// A king move goes to a square out of danger; castling also passes only over such squares.
pub open spec fn king_safe(board: Board, m: Move) -> bool {
    m.spec_piece() == Piece::King ==> {
        &&& !king_danger(board, m.spec_to() as int)
        &&& m.spec_is_castling() ==> forall|k: int|
            #[trigger] between_target(m.spec_from() as int, m.spec_to() as int, k) ==> !king_danger(board, k)
    }
}

/// The target squares `targets` can take a piece of the side to move from `source`: none is
/// `source` itself or holds a piece of the side to move.
pub open spec fn targets_ok(board: Board, source: int, targets: Bitboard) -> bool {
    forall|j: int| #[trigger] targets.has(j) ==> j != source && !(board.pieces@[j] matches Some(cp) && cp.color
        == board.gamestate.active)
}

/// `m` moves `piece` from `from`, neither castling nor taking en passant.
pub open spec fn plain_move(m: Move, piece: Piece, from: int) -> bool {
    &&& m.spec_piece() == piece
    &&& m.spec_from() == from
    &&& !m.spec_is_castling()
    &&& !m.spec_is_en_passant()
}

/// No move of `moves` is a plain move of `piece` from `from`.
pub open spec fn none_from(moves: Seq<Move>, piece: Piece, from: int) -> bool {
    forall|k: int| 0 <= k < moves.len() ==> !plain_move(#[trigger] moves[k], piece, from)
}

/// No move of `moves` moves a `piece`.
pub open spec fn none_of(moves: Seq<Move>, piece: Piece) -> bool {
    forall|k: int| 0 <= k < moves.len() ==> (#[trigger] moves[k]).spec_piece() != piece
}

/// Every move of `moves` from position `n` on moves a `piece`.
pub open spec fn all_of_from(moves: Seq<Move>, n: int, piece: Piece) -> bool {
    forall|k: int| n <= k < moves.len() ==> (#[trigger] moves[k]).spec_piece() == piece
}

/// Adding a plain move of `piece` from `from` keeps a list free of repeats when the first
/// `n` moves hold no plain move of that piece from there and each later one goes to an
/// earlier square, or to the same square with another promotion.
proof fn lemma_push_plain(s: Seq<Move>, n: int, m: Move, piece: Piece, from: int)
    requires
        s.no_duplicates(),
        0 <= n <= s.len(),
        plain_move(m, piece, from),
        forall|k: int| 0 <= k < n ==> !plain_move(#[trigger] s[k], piece, from),
        forall|k: int| n <= k < s.len() ==> (#[trigger] s[k]).spec_to() < m.spec_to() || (s[k].spec_to() == m.spec_to()
            && s[k].spec_promoted() != m.spec_promoted()),
    ensures
        s.push(m).no_duplicates(),
{
    assert forall|k: int| 0 <= k < s.len() implies #[trigger] s[k] != m by {
        if k < n {
            assert(!plain_move(s[k], piece, from));
        }
    }
    lemma_push_new(s, m);
}

/// Adding a move that is not in a list free of repeats keeps it free of repeats.
proof fn lemma_push_new(s: Seq<Move>, m: Move)
    requires
        s.no_duplicates(),
        forall|k: int| 0 <= k < s.len() ==> #[trigger] s[k] != m,
    ensures
        s.push(m).no_duplicates(),
{
    let t = s.push(m);
    assert forall|i: int, j: int| 0 <= i < t.len() && 0 <= j < t.len() && i != j implies t[i] != t[j] by {
        if i < s.len() && j < s.len() {
            assert(t[i] == s[i] && t[j] == s[j]);
        } else if i < s.len() {
            assert(t[i] == s[i]);
        } else {
            assert(t[j] == s[j]);
        }
    }
}

/// The list of moves for one position, filled by the piece generators, with the position of
/// the next move to hand out.
pub struct NewMoveGenerator {
    pub moves: Vec<Move>,
    pub size: usize,
    pub index: usize,
}

impl NewMoveGenerator {
    /// Every listed move may be handed out for `board`.
    pub open spec fn valid_for(self, board: Board) -> bool {
        &&& self.size == self.moves@.len()
        &&& self.index <= self.size
        &&& forall|k: int| 0 <= k < self.moves@.len() ==> generated_ok(board, #[trigger] self.moves@[k])
        &&& self.moves@.no_duplicates()
    }

    /// Adds a move at the end of the list.
    pub fn push(&mut self, mov: Move)
        requires
            old(self).size == old(self).moves@.len(),
        ensures
            final(self).moves@ == old(self).moves@.push(mov),
            final(self).size == final(self).moves@.len(),
            final(self).index == old(self).index,
    {
        self.moves.push(mov);
        self.size = self.moves.len();
    }

    /// Number of listed moves.
    pub fn len(&self) -> (r: usize)
        ensures
            r == self.size,
    {
        self.size
    }

    /// Hands out the next listed move, if any is left.
    pub fn next(&mut self) -> (r: Option<Move>)
        requires
            old(self).size == old(self).moves@.len(),
            old(self).index <= old(self).size,
        ensures
            final(self).moves == old(self).moves,
            final(self).size == old(self).size,
            old(self).index < old(self).size ==> r == Some(old(self).moves@[old(self).index as int])
                && final(self).index == old(self).index + 1,
            old(self).index >= old(self).size ==> r is None && final(self).index == old(self).index,
    {
        if self.index >= self.len() {
            return None;
        } else {
            let mov = self.moves[self.index];
            self.index = self.index + 1;
            return Some(mov);
        }
    }
}

/// The piece kind standing on `target`, or `NoPiece` when it is empty.
fn captured_on(board: &Board, target: Square) -> (r: Piece)
    requires
        board.shaped(),
        target.wf(),
    ensures
        r == match board.pieces@[target.index as int] {
            Some(cp) => cp.piece,
            None => Piece::NoPiece,
        },
{
    match board.get_piece_type(target) {
        Some(colored_piece) => colored_piece.piece,
        None => Piece::NoPiece,
    }
}

/// Adds a move of `piece` from `source` to each of `targets`, taking what stands there.
fn push_targets(generator: &mut NewMoveGenerator, board: &Board, piece: Piece, source: Square, targets: Bitboard)
    requires
        old(generator).valid_for(*board),
        board.consistent(),
        source.wf(),
        piece.is_real(),
        piece != Piece::Pawn,
        board.pieces@[source.index as int] == Some(ColoredPiece { piece, color: board.gamestate.active }),
        targets_ok(*board, source.index as int, targets),
        piece == Piece::King ==> forall|j: int| #[trigger] targets.has(j) ==> !king_danger(*board, j),
        piece != Piece::King ==> forall|j: int| #[trigger] targets.has(j) ==> step_ok(*board, source.index as int, j),
        forall|j: int| #[trigger] targets.has(j) ==> pseudo_target(*board, piece, source.index as int, board.occupied.0, j),
        none_from(old(generator).moves@, piece, source.index as int),
    ensures
        final(generator).valid_for(*board),
        final(generator).index == old(generator).index,
        extends(final(generator).moves@, old(generator).moves@),
        forall|j: int| #[trigger] targets.has(j) ==> lists_step(final(generator).moves@, piece, source.index as int, j),
        forall|k: int| old(generator).moves@.len() <= k < final(generator).moves@.len() ==> plain_move(
            #[trigger] final(generator).moves@[k],
            piece,
            source.index as int,
        ),
{
    proof {
        crate::board::lemma_consistent_real(*board);
    }
    let squares = targets.get_squares();
    let mut i: usize = 0;
    while i < squares.len()
        invariant
            i <= squares.len(),
            generator.valid_for(*board),
            generator.index == old(generator).index,
            board.consistent(),
            board.pieces_real(),
            source.wf(),
            piece.is_real(),
            piece != Piece::Pawn,
            board.pieces@[source.index as int] == Some(ColoredPiece { piece, color: board.gamestate.active }),
            targets_ok(*board, source.index as int, targets),
            piece == Piece::King ==> forall|j: int| #[trigger] targets.has(j) ==> !king_danger(*board, j),
            piece != Piece::King ==> forall|j: int| #[trigger] targets.has(j) ==> step_ok(*board, source.index as int, j),
            forall|j: int| #[trigger] targets.has(j) ==> pseudo_target(*board, piece, source.index as int, board.occupied.0, j),
            forall|k: int| 0 <= k < squares.len() ==> squares[k].wf() && targets.has(squares[k].index as int),
            forall|j: int| targets.has(j) ==> exists|k: int| 0 <= k < squares.len() && squares[k].index == j,
            extends(generator.moves@, old(generator).moves@),
            forall|k: int| 0 <= k < i ==> lists_step(generator.moves@, piece, source.index as int, #[trigger] squares[k].index as int),
            none_from(old(generator).moves@, piece, source.index as int),
            strictly_increasing(squares@),
            forall|k: int| old(generator).moves@.len() <= k < generator.moves@.len() ==> plain_move(
                #[trigger] generator.moves@[k],
                piece,
                source.index as int,
            ),
            i < squares.len() ==> forall|k: int| old(generator).moves@.len() <= k < generator.moves@.len()
                ==> (#[trigger] generator.moves@[k]).spec_to() < squares@[i as int].index,
        decreases squares.len() - i,
    {
        let target = squares[i];
        let captured_piece = captured_on(board, target);
        let mov = Move::capture(piece, source, target, captured_piece);
        proof {
            lemma_push_plain(generator.moves@, old(generator).moves@.len() as int, mov, piece, source.index as int);
        }
        proof {
            assert(targets.has(target.index as int));
            let a = board.gamestate.active;
            if board.pieces@[target.index as int] is Some {
                assert(board.pieces@[target.index as int] == Some(ColoredPiece { piece: captured_piece, color: a.opposite() }));
            }
            assert(generated_ok(*board, mov));
        }
        let ghost before = generator.moves@;
        generator.push(mov);
        proof {
            assert forall|k: int| 0 <= k < i + 1 implies lists_step(generator.moves@, piece, source.index as int, #[trigger] squares[k].index as int) by {
                if k < i {
                    lemma_lists_kept(generator.moves@, before, piece, source.index as int, squares[k].index as int);
                } else {
                    assert(step_of(generator.moves@[before.len() as int], piece, source.index as int, squares[k].index as int));
                }
            }
            if i + 1 < squares.len() {
                assert(squares@[i as int].index < squares@[i + 1].index);
            }
        }
        i = i + 1;
    }
    proof {
        assert forall|j: int| #[trigger] targets.has(j) implies lists_step(generator.moves@, piece, source.index as int, j) by {
            let k = choose|k: int| 0 <= k < squares.len() && squares[k].index == j;
            assert(lists_step(generator.moves@, piece, source.index as int, squares[k].index as int));
        }
    }
}

/// Adds a pawn move from `source` to each of `targets`, taking what stands there; a move to
/// the last rank becomes four promotions, to queen, rook, bishop and knight.
fn push_pawn_targets(generator: &mut NewMoveGenerator, board: &Board, source: Square, targets: Bitboard)
    requires
        old(generator).valid_for(*board),
        board.consistent(),
        source.wf(),
        board.pieces@[source.index as int] == Some(ColoredPiece { piece: Piece::Pawn, color: board.gamestate.active }),
        targets_ok(*board, source.index as int, targets),
        forall|j: int| #[trigger] targets.has(j) ==> step_ok(*board, source.index as int, j),
        forall|j: int| #[trigger] targets.has(j) ==> pseudo_target(*board, Piece::Pawn, source.index as int, board.occupied.0, j),
        none_from(old(generator).moves@, Piece::Pawn, source.index as int),
    ensures
        final(generator).valid_for(*board),
        final(generator).index == old(generator).index,
        extends(final(generator).moves@, old(generator).moves@),
        forall|j: int| #[trigger] targets.has(j) ==> pawn_listed(final(generator).moves@, source.index as int, j),
        forall|k: int| old(generator).moves@.len() <= k < final(generator).moves@.len() ==> plain_move(
            #[trigger] final(generator).moves@[k],
            Piece::Pawn,
            source.index as int,
        ),
{
    proof {
        crate::board::lemma_consistent_real(*board);
    }
    let squares = targets.get_squares();
    let mut i: usize = 0;
    while i < squares.len()
        invariant
            i <= squares.len(),
            generator.valid_for(*board),
            generator.index == old(generator).index,
            extends(generator.moves@, old(generator).moves@),
            board.consistent(),
            board.pieces_real(),
            source.wf(),
            board.pieces@[source.index as int] == Some(ColoredPiece { piece: Piece::Pawn, color: board.gamestate.active }),
            targets_ok(*board, source.index as int, targets),
            forall|j: int| #[trigger] targets.has(j) ==> step_ok(*board, source.index as int, j),
            forall|j: int| #[trigger] targets.has(j) ==> pseudo_target(*board, Piece::Pawn, source.index as int, board.occupied.0, j),
            forall|k: int| 0 <= k < squares.len() ==> squares[k].wf() && targets.has(squares[k].index as int),
            forall|j: int| targets.has(j) ==> exists|k: int| 0 <= k < squares.len() && squares[k].index == j,
            forall|k: int| 0 <= k < i ==> pawn_listed(generator.moves@, source.index as int, #[trigger] squares[k].index as int),
            none_from(old(generator).moves@, Piece::Pawn, source.index as int),
            strictly_increasing(squares@),
            forall|k: int| old(generator).moves@.len() <= k < generator.moves@.len() ==> plain_move(
                #[trigger] generator.moves@[k],
                Piece::Pawn,
                source.index as int,
            ),
            i < squares.len() ==> forall|k: int| old(generator).moves@.len() <= k < generator.moves@.len()
                ==> (#[trigger] generator.moves@[k]).spec_to() < squares@[i as int].index,
        decreases squares.len() - i,
    {
        let target = squares[i];
        let captured_piece = captured_on(board, target);
        proof {
            assert(targets.has(target.index as int));
            let a = board.gamestate.active;
            if board.pieces@[target.index as int] is Some {
                assert(board.pieces@[target.index as int] == Some(ColoredPiece { piece: captured_piece, color: a.opposite() }));
            }
        }

        let rank = target.rank();
        let is_promotion = rank == 0 || rank == 7;
        let ghost before = generator.moves@;
        let ghost t = target.index as int;
        let ghost sq = source.index as int;
        if is_promotion {
            let m1 = Move::promotion(source, target, Piece::Queen, captured_piece);
            assert(generated_ok(*board, m1));
            proof {
                lemma_push_plain(generator.moves@, old(generator).moves@.len() as int, m1, Piece::Pawn, sq);
            }
            generator.push(m1);
            let m2 = Move::promotion(source, target, Piece::Rook, captured_piece);
            assert(generated_ok(*board, m2));
            proof {
                lemma_push_plain(generator.moves@, old(generator).moves@.len() as int, m2, Piece::Pawn, sq);
            }
            generator.push(m2);
            let m3 = Move::promotion(source, target, Piece::Bishop, captured_piece);
            assert(generated_ok(*board, m3));
            proof {
                lemma_push_plain(generator.moves@, old(generator).moves@.len() as int, m3, Piece::Pawn, sq);
            }
            generator.push(m3);
            let m4 = Move::promotion(source, target, Piece::Knight, captured_piece);
            assert(generated_ok(*board, m4));
            proof {
                lemma_push_plain(generator.moves@, old(generator).moves@.len() as int, m4, Piece::Pawn, sq);
            }
            generator.push(m4);
            proof {
                let n = before.len() as int;
                assert(step_of(generator.moves@[n], Piece::Pawn, sq, t));
                assert(step_of(generator.moves@[n + 1], Piece::Pawn, sq, t));
                assert(step_of(generator.moves@[n + 2], Piece::Pawn, sq, t));
                assert(step_of(generator.moves@[n + 3], Piece::Pawn, sq, t));
                crate::generation::mov::lemma_masks(m1.0);
                assert(pawn_listed(generator.moves@, sq, t));
            }
        } else {
            let mov = Move::capture(Piece::Pawn, source, target, captured_piece);
            assert(generated_ok(*board, mov));
            proof {
                lemma_push_plain(generator.moves@, old(generator).moves@.len() as int, mov, Piece::Pawn, sq);
            }
            generator.push(mov);
            proof {
                assert(step_of(generator.moves@[before.len() as int], Piece::Pawn, sq, t));
                assert(pawn_listed(generator.moves@, sq, t));
            }
        }
        proof {
            assert forall|k: int| 0 <= k < i + 1 implies pawn_listed(generator.moves@, sq, #[trigger] squares[k].index as int) by {
                if k < i {
                    lemma_listed_kept(generator.moves@, before, Piece::Pawn, sq, squares[k].index as int);
                }
            }
            if i + 1 < squares.len() {
                assert(squares@[i as int].index < squares@[i + 1].index);
            }
        }
        i = i + 1;
    }
    proof {
        assert forall|j: int| #[trigger] targets.has(j) implies pawn_listed(generator.moves@, source.index as int, j) by {
            let k = choose|k: int| 0 <= k < squares.len() && squares[k].index == j;
            assert(pawn_listed(generator.moves@, source.index as int, squares[k].index as int));
        }
    }
}

impl<'a> Board<'a> {
    /// Moves can be generated for this board: it is consistent and the side to move has
    /// exactly one king.
    pub open spec fn can_generate(self) -> bool {
        &&& self.consistent()
        &&& popcount(self.piece_board(self.gamestate.active, Piece::King).0) == 1
    }
}

/// The squares a piece of the side to move may go to: none of them holds a piece of that
/// side.
pub open spec fn allowed_ok(board: Board, allowed: Bitboard) -> bool {
    forall|j: int| #[trigger] allowed.has(j) ==> !(board.pieces@[j] matches Some(cp) && cp.color == board.gamestate.active)
}

/// Generates the moves of one kind of piece.
pub trait PieceGenerator {
    /// The kind of piece whose moves this generator adds.
    spec fn moves_piece() -> Piece;

    /// The squares a piece on `source` reaches among `allowed`, with `blockers` occupied.
    fn pseudo_legals(board: &Board, source: Square, allowed: Bitboard, blockers: Bitboard) -> (r: Bitboard)
        requires
            board.can_generate(),
            source.wf(),
        ensures
            forall|j: int| #[trigger] r.has(j) ==> allowed.has(j) && j != source.index,
    ;

    /// Adds the legal moves of this kind of piece for the side to move, which is in check
    /// when `T::IN_CHECK` holds, given the pins and checks against its king.
    fn legals<T: CheckType>(generator: &mut NewMoveGenerator, board: &Board, state: PinCheckState)
        requires
            old(generator).valid_for(*board),
            board.can_generate(),
            state == pin_check_for(*board, board.gamestate.active),
            T::IN_CHECK <==> state.checkers.0 != 0,
            popcount(state.checkers.0) > 1 ==> Self::moves_piece() == Piece::King,
            none_of(old(generator).moves@, Self::moves_piece()),
        ensures
            final(generator).valid_for(*board),
            final(generator).index == old(generator).index,
            extends(final(generator).moves@, old(generator).moves@),
            all_of_from(final(generator).moves@, old(generator).moves@.len() as int, Self::moves_piece()),
    ;
}

/// Squares that end a check against the king on `king_square` from the single checker in
/// `checkers`: the checker itself and the squares between it and the king. Every square when
/// not in check.
fn check_mask<T: CheckType>(board: &Board, checkers: Bitboard) -> (r: Bitboard)
    requires
        board.can_generate(),
        checkers == pin_check_for(*board, board.gamestate.active).checkers,
        T::IN_CHECK <==> checkers.0 != 0,
        T::IN_CHECK ==> popcount(checkers.0) == 1,
    ensures
        forall|j: int| #[trigger] r.has(j) ==> ends_check(*board, j),
        forall|j: int| 0 <= j < 64 ==> (#[trigger] r.has(j) <==> ends_check(*board, j)),
{
    if T::IN_CHECK {
        let king_square = board.get_king_square(board.gamestate.active);

        // There can only be one checker, otherwise we would only calculate king moves.
        let checker = Square::by_index(checkers.get_trailing_index());

        // Get all the bits between the checker and the king, the checker is inclusive and the
        // king is exclusive.
        let between = checker.get_between(king_square);
        let checker_board = Bitboard::from_square(checker);
        let mask = between ^ checker_board;
        proof {
            assert forall|j: int| #[trigger] mask.has(j) implies ends_check(*board, j) by {
                crate::bitboard::lemma_set_ops(between, checker_board, j);
            }
            assert forall|j: int| 0 <= j < 64 implies (#[trigger] mask.has(j) <==> ends_check(*board, j)) by {
                crate::bitboard::lemma_set_ops(between, checker_board, j);
            }
        }
        mask
    } else {
        // We want to allow all moves if we are not in check.
        let all = Bitboard(crate::bitboard::ALL_BITS);
        proof {
            assert forall|j: int| 0 <= j < 64 implies #[trigger] all.has(j) by {
                crate::bits::lemma_all_bits(j as u64);
            }
        }
        all
    }
}

/// The squares not holding a piece of the side to move, cut down to `mask`.
fn free_squares(board: &Board, mask: Bitboard) -> (r: Bitboard)
    requires
        board.consistent(),
    ensures
        allowed_ok(*board, r),
        forall|j: int| #[trigger] r.has(j) ==> mask.has(j),
        forall|j: int| 0 <= j < 64 ==> (#[trigger] r.has(j) <==> mask.has(j) && !(board.pieces@[j] matches Some(cp) && cp.color
            == board.gamestate.active)),
{
    let own_occupied = *board.get_occupied(board.gamestate.active);
    let not_own = own_occupied.not();
    let allowed = not_own & mask;
    proof {
        reveal(crate::board::squares_agree);
        assert forall|j: int| #[trigger] allowed.has(j) implies !(board.pieces@[j] matches Some(cp) && cp.color
            == board.gamestate.active) && mask.has(j) by {
            crate::bitboard::lemma_set_ops(not_own, mask, j);
            crate::bitboard::lemma_set_ops(own_occupied, mask, j);
        }
        assert forall|j: int| 0 <= j < 64 implies (#[trigger] allowed.has(j) <==> mask.has(j) && !(board.pieces@[j] matches Some(cp)
            && cp.color == board.gamestate.active)) by {
            crate::bitboard::lemma_set_ops(not_own, mask, j);
            crate::bitboard::lemma_set_ops(own_occupied, mask, j);
        }
    }
    allowed
}

/// Adds the moves of `piece` from each of `sources` to the squares it reaches among
/// `allowed`.
fn push_piece_moves(
    generator: &mut NewMoveGenerator,
    board: &Board,
    piece: Piece,
    sources: Bitboard,
    allowed: Bitboard,
    blockers: Bitboard,
)
    requires
        old(generator).valid_for(*board),
        board.can_generate(),
        piece.is_real(),
        piece != Piece::King,
        blockers == board.occupied,
        allowed_ok(*board, allowed),
        forall|j: int| #[trigger] sources.has(j) ==> board.pieces@[j] == Some(ColoredPiece { piece, color: board.gamestate.active }),
        forall|j: int| #[trigger] sources.has(j) ==> !pin_check_for(*board, board.gamestate.active).pinned.has(j),
        forall|j: int| #[trigger] allowed.has(j) ==> ends_check(*board, j),
        forall|p: int| #[trigger] sources.has(p) ==> none_from(old(generator).moves@, piece, p),
    ensures
        forall|k: int| old(generator).moves@.len() <= k < final(generator).moves@.len() ==> plain_move(
            #[trigger] final(generator).moves@[k],
            piece,
            final(generator).moves@[k].spec_from() as int,
        ) && sources.has(final(generator).moves@[k].spec_from() as int),
        final(generator).valid_for(*board),
        final(generator).index == old(generator).index,
        extends(final(generator).moves@, old(generator).moves@),
        forall|p: int, j: int|
            sources.has(p) && pseudo_target(*board, piece, p, blockers.0, j) && allowed.has(j) ==> #[trigger] listed(
                final(generator).moves@,
                piece,
                p,
                j,
            ),
{
    let squares = sources.get_squares();
    let mut i: usize = 0;
    while i < squares.len()
        invariant
            i <= squares.len(),
            generator.valid_for(*board),
            generator.index == old(generator).index,
            extends(generator.moves@, old(generator).moves@),
            board.can_generate(),
            piece.is_real(),
            piece != Piece::King,
            blockers == board.occupied,
            allowed_ok(*board, allowed),
            forall|j: int| #[trigger] sources.has(j) ==> board.pieces@[j] == Some(ColoredPiece { piece, color: board.gamestate.active }),
            forall|j: int| #[trigger] sources.has(j) ==> !pin_check_for(*board, board.gamestate.active).pinned.has(j),
            forall|j: int| #[trigger] allowed.has(j) ==> ends_check(*board, j),
            forall|k: int| 0 <= k < squares.len() ==> squares[k].wf() && sources.has(squares[k].index as int),
            forall|p: int| sources.has(p) ==> exists|k: int| 0 <= k < squares.len() && squares[k].index == p,
            forall|k: int, j: int|
                0 <= k < i && pseudo_target(*board, piece, squares[k].index as int, blockers.0, j) && allowed.has(j)
                    ==> #[trigger] listed(generator.moves@, piece, squares[k].index as int, j),
            forall|p: int| #[trigger] sources.has(p) ==> none_from(old(generator).moves@, piece, p),
            strictly_increasing(squares@),
            forall|k: int| old(generator).moves@.len() <= k < generator.moves@.len() ==> plain_move(
                #[trigger] generator.moves@[k],
                piece,
                generator.moves@[k].spec_from() as int,
            ) && sources.has(generator.moves@[k].spec_from() as int),
            i < squares.len() ==> forall|k: int| old(generator).moves@.len() <= k < generator.moves@.len()
                ==> (#[trigger] generator.moves@[k]).spec_from() < squares@[i as int].index,
        decreases squares.len() - i,
    {
        let source = squares[i];
        let moves = pseudo_targets(board, piece, source, allowed, blockers);
        proof {
            assert(sources.has(source.index as int));
            assert forall|j: int| #[trigger] moves.has(j) implies step_ok(*board, source.index as int, j) by {
                assert(allowed.has(j));
            }
        }
        proof {
            assert forall|k: int| 0 <= k < generator.moves@.len() implies !plain_move(
                #[trigger] generator.moves@[k],
                piece,
                source.index as int,
            ) by {
                if k < old(generator).moves@.len() {
                    assert(generator.moves@[k] == old(generator).moves@[k]);
                    assert(none_from(old(generator).moves@, piece, source.index as int));
                }
            }
        }
        let ghost before = generator.moves@;
        if piece == Piece::Pawn {
            push_pawn_targets(generator, board, source, moves);
        } else {
            push_targets(generator, board, piece, source, moves);
        }
        proof {
            assert forall|k: int, j: int|
                0 <= k < i + 1 && pseudo_target(*board, piece, squares[k].index as int, blockers.0, j) && allowed.has(j)
                implies #[trigger] listed(generator.moves@, piece, squares[k].index as int, j) by {
                if k < i {
                    assert(listed(before, piece, squares[k].index as int, j));
                    lemma_listed_kept(generator.moves@, before, piece, squares[k].index as int, j);
                } else {
                    assert(moves.has(j));
                }
            }
        }
        proof {
            if i + 1 < squares.len() {
                assert(squares@[i as int].index < squares@[i + 1].index);
            }
        }
        i = i + 1;
    }
    proof {
        assert forall|p: int, j: int| sources.has(p) && pseudo_target(*board, piece, p, blockers.0, j) && allowed.has(j)
            implies #[trigger] listed(generator.moves@, piece, p, j) by {
            let k = choose|k: int| 0 <= k < squares.len() && squares[k].index == p;
            assert(listed(generator.moves@, piece, squares[k].index as int, j));
        }
    }
}

/// Adds the moves of the pinned `piece`s on `sources`, each kept to the line from the king
/// through it.
fn push_pinned_moves(
    generator: &mut NewMoveGenerator,
    board: &Board,
    piece: Piece,
    sources: Bitboard,
    allowed: Bitboard,
    blockers: Bitboard,
)
    requires
        old(generator).valid_for(*board),
        board.can_generate(),
        piece.is_real(),
        piece != Piece::King,
        blockers == board.occupied,
        allowed_ok(*board, allowed),
        forall|j: int| #[trigger] sources.has(j) ==> board.pieces@[j] == Some(ColoredPiece { piece, color: board.gamestate.active }),
        pin_check_for(*board, board.gamestate.active).checkers.0 == 0,
        forall|p: int| #[trigger] sources.has(p) ==> none_from(old(generator).moves@, piece, p),
    ensures
        forall|k: int| old(generator).moves@.len() <= k < final(generator).moves@.len() ==> plain_move(
            #[trigger] final(generator).moves@[k],
            piece,
            final(generator).moves@[k].spec_from() as int,
        ) && sources.has(final(generator).moves@[k].spec_from() as int),
        final(generator).valid_for(*board),
        final(generator).index == old(generator).index,
        extends(final(generator).moves@, old(generator).moves@),
        forall|p: int, j: int|
            sources.has(p) && pseudo_target(*board, piece, p, blockers.0, j) && allowed.has(j) && on_ray(
                king_square_of(*board, board.gamestate.active),
                direction_of(king_square_of(*board, board.gamestate.active), p),
                j,
            ) ==> #[trigger] listed(final(generator).moves@, piece, p, j),
{
    let king_square = board.get_king_square(board.gamestate.active);
    let squares = sources.get_squares();
    let mut i: usize = 0;
    while i < squares.len()
        invariant
            i <= squares.len(),
            generator.valid_for(*board),
            generator.index == old(generator).index,
            extends(generator.moves@, old(generator).moves@),
            board.can_generate(),
            king_square.wf(),
            king_square.index == king_square_of(*board, board.gamestate.active),
            pin_check_for(*board, board.gamestate.active).checkers.0 == 0,
            piece.is_real(),
            piece != Piece::King,
            blockers == board.occupied,
            allowed_ok(*board, allowed),
            forall|j: int| #[trigger] sources.has(j) ==> board.pieces@[j] == Some(ColoredPiece { piece, color: board.gamestate.active }),
            forall|k: int| 0 <= k < squares.len() ==> squares[k].wf() && sources.has(squares[k].index as int),
            forall|p: int| sources.has(p) ==> exists|k: int| 0 <= k < squares.len() && squares[k].index == p,
            forall|k: int, j: int|
                0 <= k < i && pseudo_target(*board, piece, squares[k].index as int, blockers.0, j) && allowed.has(j) && on_ray(
                    king_square.index as int,
                    direction_of(king_square.index as int, squares[k].index as int),
                    j,
                ) ==> #[trigger] listed(generator.moves@, piece, squares[k].index as int, j),
            forall|p: int| #[trigger] sources.has(p) ==> none_from(old(generator).moves@, piece, p),
            strictly_increasing(squares@),
            forall|k: int| old(generator).moves@.len() <= k < generator.moves@.len() ==> plain_move(
                #[trigger] generator.moves@[k],
                piece,
                generator.moves@[k].spec_from() as int,
            ) && sources.has(generator.moves@[k].spec_from() as int),
            i < squares.len() ==> forall|k: int| old(generator).moves@.len() <= k < generator.moves@.len()
                ==> (#[trigger] generator.moves@[k]).spec_from() < squares@[i as int].index,
        decreases squares.len() - i,
    {
        let source = squares[i];
        // The line of the piece to the king. We can just move on the line: every move between
        // the pinner and the king, and the capture of the pinner.
        let line = king_square.get_line(source);
        let allowed_on_line = allowed & line;
        proof {
            assert forall|j: int| #[trigger] allowed_on_line.has(j) implies allowed.has(j) by {
                crate::bitboard::lemma_set_ops(allowed, line, j);
            }
        }
        let moves = pseudo_targets(board, piece, source, allowed_on_line, blockers);
        proof {
            assert(sources.has(source.index as int));
            assert forall|j: int| #[trigger] moves.has(j) implies step_ok(*board, source.index as int, j) by {
                assert(allowed_on_line.has(j));
                crate::bitboard::lemma_set_ops(allowed, line, j);
            }
        }
        proof {
            assert forall|k: int| 0 <= k < generator.moves@.len() implies !plain_move(
                #[trigger] generator.moves@[k],
                piece,
                source.index as int,
            ) by {
                if k < old(generator).moves@.len() {
                    assert(generator.moves@[k] == old(generator).moves@[k]);
                    assert(none_from(old(generator).moves@, piece, source.index as int));
                }
            }
        }
        let ghost before = generator.moves@;
        if piece == Piece::Pawn {
            push_pawn_targets(generator, board, source, moves);
        } else {
            push_targets(generator, board, piece, source, moves);
        }
        proof {
            assert forall|k: int, j: int|
                0 <= k < i + 1 && pseudo_target(*board, piece, squares[k].index as int, blockers.0, j) && allowed.has(j) && on_ray(
                    king_square.index as int,
                    direction_of(king_square.index as int, squares[k].index as int),
                    j,
                ) implies #[trigger] listed(generator.moves@, piece, squares[k].index as int, j) by {
                if k < i {
                    assert(listed(before, piece, squares[k].index as int, j));
                    lemma_listed_kept(generator.moves@, before, piece, squares[k].index as int, j);
                } else {
                    crate::bitboard::lemma_set_ops(allowed, line, j);
                    assert(moves.has(j));
                }
            }
        }
        proof {
            if i + 1 < squares.len() {
                assert(squares@[i as int].index < squares@[i + 1].index);
            }
        }
        i = i + 1;
    }
    proof {
        assert forall|p: int, j: int|
            sources.has(p) && pseudo_target(*board, piece, p, blockers.0, j) && allowed.has(j) && on_ray(
                king_square.index as int,
                direction_of(king_square.index as int, p),
                j,
            ) implies #[trigger] listed(generator.moves@, piece, p, j) by {
            let k = choose|k: int| 0 <= k < squares.len() && squares[k].index == p;
            assert(listed(generator.moves@, piece, squares[k].index as int, j));
        }
    }
}

/// The pieces of `color` of kind `piece`, as sources for its moves.
proof fn lemma_sources(board: Board, color: Color, piece: Piece, sources: Bitboard, mask: Bitboard)
    requires
        board.consistent(),
        piece.is_real(),
        sources == Bitboard(board.piece_board(color, piece).0 & mask.0),
    ensures
        forall|j: int| #[trigger] sources.has(j) ==> board.pieces@[j] == Some(ColoredPiece { piece, color }),
{
    assert forall|j: int| #[trigger] sources.has(j) implies board.pieces@[j] == Some(ColoredPiece { piece, color }) by {
        crate::bitboard::lemma_set_ops(board.piece_board(color, piece), mask, j);
        crate::board::lemma_piece_board_has(board, color, piece, j);
    }
}

pub struct KnightGenerator;

/// The squares among `allowed` a knight on `source` jumps to.
fn knight_pseudo_legals(source: Square, allowed: Bitboard) -> (r: Bitboard)
    requires
        source.wf(),
    ensures
        forall|j: int| #[trigger] r.has(j) <==> (knight_target(source.index as int, j) && allowed.has(j)),
{
        let moves = source.get_knight_moves();
        let pseudo_legals = moves & allowed;
        proof {
            assert forall|j: int| #[trigger] pseudo_legals.has(j) <==> (knight_target(source.index as int, j) && allowed.has(j)) by {
                crate::bitboard::lemma_set_ops(moves, allowed, j);
            }
        }
        pseudo_legals
}

impl PieceGenerator for KnightGenerator {
    open spec fn moves_piece() -> Piece {
        Piece::Knight
    }

    fn pseudo_legals(board: &Board, source: Square, allowed: Bitboard, blockers: Bitboard) -> (r: Bitboard)
        ensures
            forall|j: int| #[trigger] r.has(j) <==> (knight_target(source.index as int, j) && allowed.has(j)),
    {
        knight_pseudo_legals(source, allowed)
    }

    fn legals<T: CheckType>(generator: &mut NewMoveGenerator, board: &Board, state: PinCheckState)
        ensures
            piece_moves_listed(*board, final(generator).moves@, Piece::Knight),
    {
        let knights = *board.get_piece_board(board.gamestate.active, Piece::Knight);
        let all_occupied = *board.get_all_occupied();
        let unpinned = state.pinned.not();

        // All the moves that are allowed based on the check condition, where no own piece is.
        proof {
            if state.checkers.0 != 0 {
                lemma_single_check(state.checkers.0);
            }
        }
        let mask = check_mask::<T>(board, state.checkers);
        let allowed = free_squares(board, mask);

        // The knight can never move on a pin ray because of its movement. Thus we can ignore
        // every knight that is pinned.
        let sources = knights & unpinned;
        proof {
            lemma_sources(*board, board.gamestate.active, Piece::Knight, sources, unpinned);
            assert forall|j: int| #[trigger] sources.has(j) implies !state.pinned.has(j) by {
                crate::bitboard::lemma_set_ops(knights, unpinned, j);
                crate::bitboard::lemma_set_ops(state.pinned, state.pinned, j);
            }
        }
        proof {
            assert forall|p: int| #[trigger] sources.has(p) implies none_from(generator.moves@, Piece::Knight, p) by {
                assert forall|k: int| 0 <= k < generator.moves@.len() implies !plain_move(#[trigger] generator.moves@[k], Piece::Knight, p) by {
                    assert(generator.moves@[k].spec_piece() != Piece::Knight);
                }
            }
        }
        push_piece_moves(generator, board, Piece::Knight, sources, allowed, all_occupied);
        proof {
            reveal(crate::board::squares_agree);
            let a = board.gamestate.active;
            assert forall|p: int, j: int|
                board.pieces@[p] == Some(ColoredPiece { piece: Piece::Knight, color: a }) && pseudo_target(
                    *board,
                    Piece::Knight,
                    p,
                    board.occupied.0,
                    j,
                ) && !(board.pieces@[j] matches Some(cp) && cp.color == a) && ends_check(*board, j) && !state.pinned.has(p)
                implies #[trigger] listed(generator.moves@, Piece::Knight, p, j) by {
                assert(mask.has(j));
                assert(allowed.has(j));
                crate::bitboard::lemma_set_ops(knights, unpinned, p);
                crate::bitboard::lemma_set_ops(state.pinned, state.pinned, p);
                assert(knights.has(p));
                assert(sources.has(p));
            }
        }
    }
}

/// A check by at most one piece that is there at all is a check by one piece.
proof fn lemma_single_check(checkers: u64)
    requires
        checkers != 0,
        popcount(checkers) <= 1,
    ensures
        popcount(checkers) == 1,
{
    if popcount(checkers) == 0 {
        crate::bits::lemma_popcount_zero(checkers);
    }
}

/// Adds the moves of the unpinned sliding `piece`s, and of the pinned ones when not in check.
fn slider_legals<T: CheckType>(generator: &mut NewMoveGenerator, board: &Board, state: PinCheckState, piece: Piece)
    requires
        old(generator).valid_for(*board),
        board.can_generate(),
        piece.is_real(),
        piece != Piece::King,
        state == pin_check_for(*board, board.gamestate.active),
        T::IN_CHECK <==> state.checkers.0 != 0,
        T::IN_CHECK ==> popcount(state.checkers.0) == 1,
        none_of(old(generator).moves@, piece),
    ensures
        final(generator).valid_for(*board),
        final(generator).index == old(generator).index,
        extends(final(generator).moves@, old(generator).moves@),
        piece != Piece::Knight ==> piece_moves_listed(*board, final(generator).moves@, piece),
        forall|k: int| old(generator).moves@.len() <= k < final(generator).moves@.len() ==> plain_move(
            #[trigger] final(generator).moves@[k],
            piece,
            final(generator).moves@[k].spec_from() as int,
        ),
{
    let pieces = *board.get_piece_board(board.gamestate.active, piece);
    let all_occupied = *board.get_all_occupied();
    let pinned = state.pinned;
    let unpinned = pinned.not();

    // All the moves that are allowed based on the check condition, where no own piece is.
    let mask = check_mask::<T>(board, state.checkers);
    let allowed = free_squares(board, mask);

    // At first calculate every move that is not pinned.
    let sources = pieces & unpinned;
    proof {
        lemma_sources(*board, board.gamestate.active, piece, sources, unpinned);
        assert forall|j: int| #[trigger] sources.has(j) implies !pinned.has(j) by {
            crate::bitboard::lemma_set_ops(pieces, unpinned, j);
            crate::bitboard::lemma_set_ops(pinned, pinned, j);
        }
    }
    proof {
        assert forall|p: int| #[trigger] sources.has(p) implies none_from(generator.moves@, piece, p) by {
            assert forall|k: int| 0 <= k < generator.moves@.len() implies !plain_move(#[trigger] generator.moves@[k], piece, p) by {
                assert(generator.moves@[k].spec_piece() != piece);
            }
        }
    }
    push_piece_moves(generator, board, piece, sources, allowed, all_occupied);
    let ghost unpinned_done = generator.moves@;

    // It is not possible to move pinned pieces when in check.
    if !T::IN_CHECK {
        let pinned_sources = pieces & pinned;
        proof {
            lemma_sources(*board, board.gamestate.active, piece, pinned_sources, pinned);
            assert forall|p: int| #[trigger] pinned_sources.has(p) implies none_from(generator.moves@, piece, p) by {
                crate::bitboard::lemma_set_ops(pieces, pinned, p);
                crate::bitboard::lemma_set_ops(pieces, unpinned, p);
                crate::bitboard::lemma_set_ops(pinned, pinned, p);
                assert(!sources.has(p));
                assert forall|k: int| 0 <= k < generator.moves@.len() implies !plain_move(#[trigger] generator.moves@[k], piece, p) by {
                    if k < old(generator).moves@.len() {
                        assert(generator.moves@[k] == old(generator).moves@[k]);
                        assert(old(generator).moves@[k].spec_piece() != piece);
                    } else {
                        assert(sources.has(generator.moves@[k].spec_from() as int));
                    }
                }
            }
        }
        push_pinned_moves(generator, board, piece, pinned_sources, allowed, all_occupied);
        proof {
            let a = board.gamestate.active;
            let k = king_square_of(*board, a);
            assert forall|p: int, j: int|
                pinned.has(p) && board.pieces@[p] == Some(ColoredPiece { piece, color: a }) && pseudo_target(
                    *board,
                    piece,
                    p,
                    board.occupied.0,
                    j,
                ) && allowed.has(j) && on_ray(k, direction_of(k, p), j) implies #[trigger] listed(generator.moves@, piece, p, j) by {
                reveal(crate::board::squares_agree);
                crate::bitboard::lemma_set_ops(pieces, pinned, p);
                assert(pinned_sources.has(p));
            }
        }
    }
    proof {
        reveal(crate::board::squares_agree);
        let a = board.gamestate.active;
        let k = king_square_of(*board, a);
        assert forall|p: int, j: int|
            board.pieces@[p] == Some(ColoredPiece { piece, color: a }) && pseudo_target(*board, piece, p, board.occupied.0, j)
                && !(board.pieces@[j] matches Some(cp) && cp.color == a) && ends_check(*board, j) && (state.pinned.has(p)
                ==> piece != Piece::Knight && state.checkers.0 == 0 && on_ray(k, direction_of(k, p), j))
            implies #[trigger] listed(generator.moves@, piece, p, j) by {
            assert(0 <= j < 64);
            assert(0 <= p < 64);
            assert(mask.has(j));
            assert(allowed.has(j));
            crate::bitboard::lemma_set_ops(pieces, unpinned, p);
            crate::bitboard::lemma_set_ops(pieces, pinned, p);
            crate::bitboard::lemma_set_ops(pinned, pinned, p);
            assert(pieces.has(p));
            if !state.pinned.has(p) {
                assert(sources.has(p));
                assert(listed(unpinned_done, piece, p, j));
                lemma_listed_kept(generator.moves@, unpinned_done, piece, p, j);
            }
        }
    }
}

pub struct RookGenerator;

/// The squares among `allowed` a piece on `source` reaches, with `blockers` occupied.
fn rook_pseudo_legals(source: Square, allowed: Bitboard, blockers: Bitboard) -> (r: Bitboard)
    requires
        source.wf(),
    ensures
        forall|j: int| #[trigger] r.has(j) <==> (rook_target(source.index as int, blockers.0, j) && allowed.has(j)),
{
    let moves = source.get_rook_attacks(blockers);
    let pseudo_legals = moves & allowed;
    proof {
        assert forall|j: int| #[trigger] pseudo_legals.has(j) <==> (rook_target(source.index as int, blockers.0, j) && allowed.has(j)) by {
            crate::bitboard::lemma_set_ops(moves, allowed, j);
        }
    }
    pseudo_legals
}

impl PieceGenerator for RookGenerator {
    open spec fn moves_piece() -> Piece {
        Piece::Rook
    }

    fn pseudo_legals(board: &Board, source: Square, allowed: Bitboard, blockers: Bitboard) -> (r: Bitboard)
        ensures
            forall|j: int| #[trigger] r.has(j) <==> (rook_target(source.index as int, blockers.0, j) && allowed.has(j)),
    {
        rook_pseudo_legals(source, allowed, blockers)
    }

    fn legals<T: CheckType>(generator: &mut NewMoveGenerator, board: &Board, state: PinCheckState)
        ensures
            piece_moves_listed(*board, final(generator).moves@, Piece::Rook),
    {
        proof {
            if state.checkers.0 != 0 {
                lemma_single_check(state.checkers.0);
            }
        }
        slider_legals::<T>(generator, board, state, Piece::Rook);
    }
}

pub struct BishopGenerator;

/// The squares among `allowed` a piece on `source` reaches, with `blockers` occupied.
fn bishop_pseudo_legals(source: Square, allowed: Bitboard, blockers: Bitboard) -> (r: Bitboard)
    requires
        source.wf(),
    ensures
        forall|j: int| #[trigger] r.has(j) <==> (bishop_target(source.index as int, blockers.0, j) && allowed.has(j)),
{
    let moves = source.get_bishop_attacks(blockers);
    let pseudo_legals = moves & allowed;
    proof {
        assert forall|j: int| #[trigger] pseudo_legals.has(j) <==> (bishop_target(source.index as int, blockers.0, j) && allowed.has(j)) by {
            crate::bitboard::lemma_set_ops(moves, allowed, j);
        }
    }
    pseudo_legals
}

impl PieceGenerator for BishopGenerator {
    open spec fn moves_piece() -> Piece {
        Piece::Bishop
    }

    fn pseudo_legals(board: &Board, source: Square, allowed: Bitboard, blockers: Bitboard) -> (r: Bitboard)
        ensures
            forall|j: int| #[trigger] r.has(j) <==> (bishop_target(source.index as int, blockers.0, j) && allowed.has(j)),
    {
        bishop_pseudo_legals(source, allowed, blockers)
    }

    fn legals<T: CheckType>(generator: &mut NewMoveGenerator, board: &Board, state: PinCheckState)
        ensures
            piece_moves_listed(*board, final(generator).moves@, Piece::Bishop),
    {
        proof {
            if state.checkers.0 != 0 {
                lemma_single_check(state.checkers.0);
            }
        }
        slider_legals::<T>(generator, board, state, Piece::Bishop);
    }
}

pub struct QueenGenerator;

/// The squares among `allowed` a queen on `source` reaches, with `blockers` occupied.
fn queen_pseudo_legals(source: Square, allowed: Bitboard, blockers: Bitboard) -> (r: Bitboard)
    requires
        source.wf(),
    ensures
        forall|j: int| #[trigger] r.has(j) <==> ((rook_target(source.index as int, blockers.0, j) || bishop_target(source.index as int, blockers.0, j)) && allowed.has(j)),
{
        let rook_moves = source.get_rook_attacks(blockers);
        let bishop_moves = source.get_bishop_attacks(blockers);
        let moves = rook_moves | bishop_moves;
        let pseudo_legals = moves & allowed;
        proof {
            assert forall|j: int| #[trigger] pseudo_legals.has(j) <==> ((rook_target(source.index as int, blockers.0, j) || bishop_target(source.index as int, blockers.0, j)) && allowed.has(j)) by {
                crate::bitboard::lemma_set_ops(moves, allowed, j);
                crate::bitboard::lemma_set_ops(rook_moves, bishop_moves, j);
            }
        }
        pseudo_legals
}

impl PieceGenerator for QueenGenerator {
    open spec fn moves_piece() -> Piece {
        Piece::Queen
    }

    fn pseudo_legals(board: &Board, source: Square, allowed: Bitboard, blockers: Bitboard) -> (r: Bitboard)
        ensures
            forall|j: int| #[trigger] r.has(j) <==> ((rook_target(source.index as int, blockers.0, j) || bishop_target(source.index as int, blockers.0, j)) && allowed.has(j)),
    {
        queen_pseudo_legals(source, allowed, blockers)
    }

    fn legals<T: CheckType>(generator: &mut NewMoveGenerator, board: &Board, state: PinCheckState)
        ensures
            piece_moves_listed(*board, final(generator).moves@, Piece::Queen),
    {
        proof {
            if state.checkers.0 != 0 {
                lemma_single_check(state.checkers.0);
            }
        }
        slider_legals::<T>(generator, board, state, Piece::Queen);
    }
}

/// The squares behind which a pawn's double step would be blocked: the occupied squares
/// other than `source`, moved one rank towards the side to move.
pub open spec fn double_push_blockers(active: Color, blockers: u64, source: int) -> u64 {
    let b = blockers ^ crate::bits::single(source as u64);
    if active.opposite() == Color::Black {
        b << 8u64
    } else {
        b >> 8u64
    }
}

/// The squares among `allowed` a pawn of the side to move on `source` pushes to (free and not
/// blocked behind) or takes on.
fn pawn_pseudo_legals(board: &Board, source: Square, allowed: Bitboard, blockers: Bitboard) -> (r: Bitboard)
    requires
        source.wf(),
    ensures
        forall|j: int| #[trigger] r.has(j) <==> allowed.has(j) && ((pawn_push_target(board.gamestate.active, source.index as int, j)
            && !blockers.has(j) && !Bitboard(double_push_blockers(board.gamestate.active, blockers.0, source.index as int)).has(j))
            || (pawn_attack_target(board.gamestate.active, source.index as int, j) && blockers.has(j))),
{
    let active = board.gamestate.active;
    let mut push_blockers = blockers ^ Bitboard::from_square(source);
    match active.not() {
        Color::Black => push_blockers = Bitboard(push_blockers.0 << 8u64),
        Color::White => push_blockers = Bitboard(push_blockers.0 >> 8u64),
    }

    let mut pushes = source.get_pawn_pushes(active);
    let p0 = pushes;
    let not_blockers = blockers.not();
    pushes = pushes & not_blockers;
    let p1 = pushes;
    let not_push_blockers = push_blockers.not();
    pushes = pushes & not_push_blockers;

    let attacks = source.get_pawn_attacks(active);
    let takes = attacks & blockers;
    let candidates = pushes | takes;
    let pseudo_legals = candidates & allowed;
    proof {
        assert(push_blockers.0 == double_push_blockers(active, blockers.0, source.index as int));
        assert forall|j: int| #[trigger] pseudo_legals.has(j) <==> allowed.has(j) && ((pawn_push_target(active, source.index as int, j)
            && !blockers.has(j) && !push_blockers.has(j))
            || (pawn_attack_target(active, source.index as int, j) && blockers.has(j))) by {
            crate::bitboard::lemma_set_ops(candidates, allowed, j);
            crate::bitboard::lemma_set_ops(pushes, takes, j);
            crate::bitboard::lemma_set_ops(attacks, blockers, j);
            crate::bitboard::lemma_set_ops(p1, not_push_blockers, j);
            crate::bitboard::lemma_set_ops(push_blockers, blockers, j);
            crate::bitboard::lemma_set_ops(p0, not_blockers, j);
            crate::bitboard::lemma_set_ops(blockers, blockers, j);
        }
    }
    pseudo_legals
}

/// The squares among `allowed` a king on `source` steps to.
fn king_pseudo_legals(source: Square, allowed: Bitboard) -> (r: Bitboard)
    requires
        source.wf(),
    ensures
        forall|j: int| #[trigger] r.has(j) <==> (king_target(source.index as int, j) && allowed.has(j)),
{
    let moves = source.get_king_moves();
    let pseudo_legals = moves & allowed;
    proof {
        assert forall|j: int| #[trigger] pseudo_legals.has(j) <==> (king_target(source.index as int, j) && allowed.has(j)) by {
            crate::bitboard::lemma_set_ops(moves, allowed, j);
        }
    }
    pseudo_legals
}

/// A `piece` of the side to move on `source` reaches `j` when `blockers` are occupied: a pawn
/// pushes there (one step, or two from its first rank over a free square) or takes there, the
/// other pieces move as they attack.
pub open spec fn pseudo_target(board: Board, piece: Piece, source: int, blockers: u64, j: int) -> bool {
    let a = board.gamestate.active;
    match piece {
        Piece::Pawn => (pawn_push_target(a, source, j) && !Bitboard(blockers).has(j) && !Bitboard(
            double_push_blockers(a, blockers, source),
        ).has(j)) || (pawn_attack_target(a, source, j) && Bitboard(blockers).has(j)),
        Piece::Knight => knight_target(source, j),
        Piece::Bishop => bishop_target(source, blockers, j),
        Piece::Rook => rook_target(source, blockers, j),
        Piece::Queen => rook_target(source, blockers, j) || bishop_target(source, blockers, j),
        _ => king_target(source, j),
    }
}

/// The squares among `allowed` a `piece` of the side to move on `source` reaches.
fn pseudo_targets(board: &Board, piece: Piece, source: Square, allowed: Bitboard, blockers: Bitboard) -> (r: Bitboard)
    requires
        source.wf(),
    ensures
        forall|j: int| #[trigger] r.has(j) ==> allowed.has(j) && j != source.index,
        forall|j: int| #[trigger] r.has(j) <==> pseudo_target(*board, piece, source.index as int, blockers.0, j) && allowed.has(j),
{
    match piece {
        Piece::Pawn => pawn_pseudo_legals(board, source, allowed, blockers),
        Piece::Knight => knight_pseudo_legals(source, allowed),
        Piece::Bishop => bishop_pseudo_legals(source, allowed, blockers),
        Piece::Rook => rook_pseudo_legals(source, allowed, blockers),
        Piece::Queen => queen_pseudo_legals(source, allowed, blockers),
        _ => king_pseudo_legals(source, allowed),
    }
}

pub struct PawnGenerator;

impl PieceGenerator for PawnGenerator {
    open spec fn moves_piece() -> Piece {
        Piece::Pawn
    }

    fn pseudo_legals(board: &Board, source: Square, allowed: Bitboard, blockers: Bitboard) -> (r: Bitboard)
        ensures
            forall|j: int| #[trigger] r.has(j) <==> allowed.has(j) && ((pawn_push_target(board.gamestate.active, source.index as int, j)
                && !blockers.has(j) && !Bitboard(double_push_blockers(board.gamestate.active, blockers.0, source.index as int)).has(j))
                || (pawn_attack_target(board.gamestate.active, source.index as int, j) && blockers.has(j))),
    {
        pawn_pseudo_legals(board, source, allowed, blockers)
    }

    fn legals<T: CheckType>(generator: &mut NewMoveGenerator, board: &Board, state: PinCheckState)
        ensures
            piece_moves_listed(*board, final(generator).moves@, Piece::Pawn),
            en_passants_listed(*board, final(generator).moves@),
    {
        proof {
            if state.checkers.0 != 0 {
                lemma_single_check(state.checkers.0);
            }
        }
        slider_legals::<T>(generator, board, state, Piece::Pawn);
        let ghost pushed = generator.moves@;

        if let Some(en_passant) = board.gamestate.en_passant {
            // An en passant square off the board (which a FEN text can name) allows no move.
            if !en_passant.to_move.in_board() || !en_passant.to_capture.in_board() {
                return;
            }
            let pawns = *board.get_piece_board(board.gamestate.active, Piece::Pawn);
            let to_capture = en_passant.to_capture;
            let destination = en_passant.to_move;

            let rank = Bitboard(0xFFu64 << (to_capture.rank() * 8) as u64);
            let adjacent_files = adjacent_files(to_capture);

            let allowed = pawns & rank & adjacent_files;
            proof {
                assert(allowed == Bitboard(pawns.0 & (rank.0 & adjacent_files.0))) by {
                    let x = pawns.0;
                    let y = rank.0;
                    let z = adjacent_files.0;
                    assert((x & y) & z == x & (y & z)) by (bit_vector);
                }
                lemma_sources(*board, board.gamestate.active, Piece::Pawn, allowed, Bitboard(rank.0 & adjacent_files.0));
            }
            proof {
                let c = to_capture.index as int;
                assert forall|p: int| #[trigger] allowed.has(p) implies p / 8 == c / 8 && (p % 8 == c % 8 - 1 || p % 8 == c % 8 + 1) by {
                    let f = to_capture.spec_file();
                    crate::bits::lemma_rank_word(to_capture.spec_rank() as u64, p as u64);
                    if f > 0 {
                        crate::bits::lemma_file_word((f - 1) as u64, p as u64);
                    }
                    if f < 7 {
                        crate::bits::lemma_file_word((f + 1) as u64, p as u64);
                    }
                    let left: u64 = if f > 0 { crate::bitboard::constants::FILE_A << (f - 1) as u64 } else { 0 };
                    let right: u64 = if f < 7 { crate::bitboard::constants::FILE_A << (f + 1) as u64 } else { 0 };
                    crate::bits::lemma_bit_or(left, right, p as u64);
                    crate::bits::lemma_bit_zero(p as u64);
                    crate::bitboard::lemma_set_ops(rank, adjacent_files, p);
                    crate::bitboard::lemma_set_ops(pawns, Bitboard(rank.0 & adjacent_files.0), p);
                }
            }
            let squares = allowed.get_squares();
            let mut i: usize = 0;
            while i < squares.len()
                invariant
                    forall|p: int| #[trigger] allowed.has(p) ==> p / 8 == to_capture.index / 8 && (p % 8 == to_capture.index % 8 - 1
                        || p % 8 == to_capture.index % 8 + 1),
                    i <= squares.len(),
                    generator.valid_for(*board),
                    generator.index == old(generator).index,
                    extends(generator.moves@, old(generator).moves@),
                    board.can_generate(),
                    board.gamestate.en_passant == Some(en_passant),
                    popcount(pin_check_for(*board, board.gamestate.active).checkers.0) <= 1,
                    en_passant.to_move.wf(),
                    en_passant.to_capture.wf(),
                    to_capture == en_passant.to_capture,
                    destination == en_passant.to_move,
                    forall|j: int| #[trigger] allowed.has(j) ==> board.pieces@[j] == Some(ColoredPiece { piece: Piece::Pawn, color: board.gamestate.active }),
                    forall|k: int| 0 <= k < squares.len() ==> squares[k].wf() && allowed.has(squares[k].index as int),
                    forall|p: int| allowed.has(p) ==> exists|k: int| 0 <= k < squares.len() && squares[k].index == p,
                    extends(generator.moves@, pushed),
                    extends(pushed, old(generator).moves@),
                    none_of(old(generator).moves@, Piece::Pawn),
                    strictly_increasing(squares@),
                    forall|k: int| old(generator).moves@.len() <= k < pushed.len() ==> plain_move(
                        #[trigger] pushed[k],
                        Piece::Pawn,
                        pushed[k].spec_from() as int,
                    ),
                    forall|k: int| pushed.len() <= k < generator.moves@.len() ==> (#[trigger] generator.moves@[k]).spec_is_en_passant()
                        && generator.moves@[k].spec_piece() == Piece::Pawn,
                    i < squares.len() ==> forall|k: int| pushed.len() <= k < generator.moves@.len()
                        ==> (#[trigger] generator.moves@[k]).spec_from() < squares@[i as int].index,
                    forall|k: int|
                        0 <= k < i && board.pieces@[to_capture.index as int] == Some(
                            ColoredPiece { piece: Piece::Pawn, color: board.gamestate.active.opposite() },
                        ) && board.pieces@[destination.index as int] is None && en_passant_clear(
                            *board,
                            squares[k].index as int,
                            to_capture.index as int,
                            destination.index as int,
                        ) ==> #[trigger] lists_en_passant(generator.moves@, squares[k].index as int, destination.index as int),
                decreases squares.len() - i,
            {
                let source = squares[i];
                proof {
                    assert(allowed.has(source.index as int));
                }
                if PawnGenerator::is_legal_en_passant(board, source, &en_passant) && pawn_of(board, to_capture, board.gamestate.active.not())
                    && board.get_piece_type(destination).is_none() {
                    let mov = Move::en_passant(source, destination, to_capture);
                    proof {
                        crate::generation::mov::lemma_masks(mov.0);
                        reveal(crate::board::squares_agree);
                        assert(en_passant_allowed(*board, mov));
                        assert(generated_ok(*board, mov));
                        assert forall|k: int| 0 <= k < generator.moves@.len() implies #[trigger] generator.moves@[k] != mov by {
                            if k < old(generator).moves@.len() {
                                assert(generator.moves@[k] == pushed[k]);
                                assert(pushed[k] == old(generator).moves@[k]);
                                assert(old(generator).moves@[k].spec_piece() != Piece::Pawn);
                            } else if k < pushed.len() {
                                assert(generator.moves@[k] == pushed[k]);
                                assert(plain_move(pushed[k], Piece::Pawn, pushed[k].spec_from() as int));
                            }
                        }
                        lemma_push_new(generator.moves@, mov);
                    }
                    let ghost before = generator.moves@;
                    generator.push(mov);
                    proof {
                        assert(generator.moves@[before.len() as int] == mov);
                        assert forall|k: int|
                            0 <= k < i && board.pieces@[to_capture.index as int] == Some(
                                ColoredPiece { piece: Piece::Pawn, color: board.gamestate.active.opposite() },
                            ) && board.pieces@[destination.index as int] is None && en_passant_clear(
                                *board,
                                squares[k].index as int,
                                to_capture.index as int,
                                destination.index as int,
                            ) implies #[trigger] lists_en_passant(generator.moves@, squares[k].index as int, destination.index as int) by {
                            assert(lists_en_passant(before, squares[k].index as int, destination.index as int));
                            lemma_en_passant_kept(generator.moves@, before, squares[k].index as int, destination.index as int);
                        }
                    }
                }
                proof {
                    reveal(crate::board::squares_agree);
                    assert(lists_en_passant(generator.moves@, source.index as int, destination.index as int) || !(
                        board.pieces@[to_capture.index as int] == Some(
                            ColoredPiece { piece: Piece::Pawn, color: board.gamestate.active.opposite() },
                        ) && board.pieces@[destination.index as int] is None && en_passant_clear(
                            *board,
                            source.index as int,
                            to_capture.index as int,
                            destination.index as int,
                        )));
                    if i + 1 < squares.len() {
                        assert(squares@[i as int].index < squares@[i + 1].index);
                    }
                }
                i = i + 1;
            }
            proof {
                reveal(crate::board::squares_agree);
                let a = board.gamestate.active;
                let c = to_capture.index as int;
                let t = destination.index as int;
                assert forall|p: int|
                    popcount(pin_check_for(*board, a).checkers.0) <= 1 && 0 <= p < 64 && board.pieces@[p] == Some(ColoredPiece { piece: Piece::Pawn, color: a }) && p / 8 == c / 8 && (p
                        % 8 == c % 8 - 1 || p % 8 == c % 8 + 1) && board.pieces@[c] == Some(
                        ColoredPiece { piece: Piece::Pawn, color: a.opposite() },
                    ) && board.pieces@[t] is None && en_passant_clear(*board, p, c, t)
                    implies #[trigger] lists_en_passant(generator.moves@, p, t) by {
                    crate::bits::lemma_rank_word(to_capture.spec_rank() as u64, p as u64);
                    let f = to_capture.spec_file();
                    if f > 0 {
                        crate::bits::lemma_file_word((f - 1) as u64, p as u64);
                    }
                    if f < 7 {
                        crate::bits::lemma_file_word((f + 1) as u64, p as u64);
                    }
                    crate::bitboard::lemma_set_ops(rank, adjacent_files, p);
                    crate::bitboard::lemma_set_ops(pawns, Bitboard(rank.0 & adjacent_files.0), p);
                    assert(pawns.has(p));
                    let left: u64 = if f > 0 { crate::bitboard::constants::FILE_A << (f - 1) as u64 } else { 0 };
                    let right: u64 = if f < 7 { crate::bitboard::constants::FILE_A << (f + 1) as u64 } else { 0 };
                    crate::bits::lemma_bit_or(left, right, p as u64);
                    crate::bits::lemma_bit_zero(p as u64);
                    assert(adjacent_files.has(p));
                    assert(allowed.has(p));
                    let k = choose|k: int| 0 <= k < squares.len() && squares[k].index == p;
                    assert(lists_en_passant(generator.moves@, squares[k].index as int, t));
                }
                lemma_piece_moves_kept(*board, generator.moves@, pushed, Piece::Pawn);
            }
        }
    }
}

/// The files beside the file of `square`.
fn adjacent_files(square: Square) -> (r: Bitboard)
    requires
        square.wf(),
    ensures
        r.0 == (if square.spec_file() > 0 { crate::bitboard::constants::FILE_A << (square.spec_file() - 1) as u64 } else { 0 })
            | (if square.spec_file() < 7 { crate::bitboard::constants::FILE_A << (square.spec_file() + 1) as u64 } else { 0 }),
{
    let file = square.file();
    let left = if file > 0 { crate::bitboard::constants::FILE_A << (file - 1) as u64 } else { 0 };
    let right = if file < 7 { crate::bitboard::constants::FILE_A << (file + 1) as u64 } else { 0 };
    Bitboard(left | right)
}

/// Whether a pawn of `color` stands on `square`.
fn pawn_of(board: &Board, square: Square, color: Color) -> (r: bool)
    requires
        board.shaped(),
        square.wf(),
    ensures
        r == (board.pieces@[square.index as int] == Some(ColoredPiece { piece: Piece::Pawn, color })),
{
    match board.get_piece_type(square) {
        Some(colored_piece) => colored_piece.piece == Piece::Pawn && colored_piece.color == color,
        None => false,
    }
}

impl PawnGenerator {
    /// Whether taking en passant with the pawn on `source` leaves the king of the side to move
    /// out of reach of the other side's sliding pieces, with both pawns gone from their squares
    /// and the taking pawn on its target.
    fn is_legal_en_passant(board: &Board, source: Square, en_passant: &EnPassant) -> (r: bool)
        requires
            board.can_generate(),
            source.wf(),
            en_passant.to_move.wf(),
            en_passant.to_capture.wf(),
        ensures
            r == en_passant_clear(*board, source.index as int, en_passant.to_capture.index as int, en_passant.to_move.index as int),
    {
        let king_square = board.get_king_square(board.gamestate.active);
        let all_occupied = *board.get_all_occupied();

        let mut blockers = all_occupied;
        blockers = blockers ^ Bitboard::from_square(source);
        blockers = blockers ^ Bitboard::from_square(en_passant.to_capture);
        blockers = blockers ^ Bitboard::from_square(en_passant.to_move);

        let mut attackers = Bitboard(0);

        let other = board.gamestate.active.not();
        let queens = *board.get_piece_board(other, Piece::Queen);

        let bishops = *board.get_piece_board(other, Piece::Bishop);
        let bishop_attacks = king_square.get_bishop_attacks(blockers);
        let bishop_attackers = bishop_attacks & (bishops | queens);
        attackers = attackers ^ bishop_attackers;

        let rooks = *board.get_piece_board(other, Piece::Rook);
        let rook_attacks = king_square.get_rook_attacks(blockers);
        let rook_attackers = rook_attacks & (rooks | queens);
        let before = attackers;
        attackers = attackers ^ rook_attackers;

        proof {
            let k = king_square.index as int;
            let occ = blockers.0;
            let a = board.gamestate.active;
            assert(k == king_square_of(*board, a));
            assert(occ == ((board.occupied.0 ^ single(source.index as u64)) ^ single(en_passant.to_capture.index as u64)) ^ single(en_passant.to_move.index as u64));
            assert(other == a.opposite());
            assert(queens == board.piece_board(a.opposite(), Piece::Queen));
            assert(bishops == board.piece_board(a.opposite(), Piece::Bishop));
            assert(rooks == board.piece_board(a.opposite(), Piece::Rook));
            assert forall|p: int| 0 <= p < 64 implies #[trigger] attackers.has(p) == ((bishop_target(k, occ, p) && (bishops.has(p) || queens.has(p)))
                || (rook_target(k, occ, p) && (rooks.has(p) || queens.has(p)))) by {
                crate::bitboard::lemma_set_ops(before, rook_attackers, p);
                crate::bitboard::lemma_set_ops(Bitboard(0), bishop_attackers, p);
                crate::bitboard::lemma_set_ops(bishop_attacks, Bitboard(bishops.0 | queens.0), p);
                crate::bitboard::lemma_set_ops(rook_attacks, Bitboard(rooks.0 | queens.0), p);
                crate::bitboard::lemma_set_ops(bishops, queens, p);
                crate::bitboard::lemma_set_ops(rooks, queens, p);
                crate::bits::lemma_bit_zero(p as u64);
            }
            if attackers.0 == 0 {
                assert forall|p: int| 0 <= p < 64 implies !#[trigger] attackers.has(p) by {
                    crate::bits::lemma_bit_zero(p as u64);
                }
                assert forall|p: int| 0 <= p < 64 implies !(bishop_target(k, occ, p) && (bishops.has(p) || queens.has(p)))
                    && !(rook_target(k, occ, p) && (rooks.has(p) || queens.has(p))) by {
                    assert(!attackers.has(p));
                }
                assert(en_passant_clear(*board, source.index as int, en_passant.to_capture.index as int, en_passant.to_move.index as int));
            } else {
                if forall|p: int| 0 <= p < 64 ==> !#[trigger] attackers.has(p) {
                    assert forall|i: u64| i < 64 implies crate::bits::bit_set(attackers.0, i) == crate::bits::bit_set(0, i) by {
                        assert(!attackers.has(i as int));
                        crate::bits::lemma_bit_zero(i);
                    }
                    crate::bits::lemma_bits_ext(attackers.0, 0);
                }
                let p = choose|p: int| 0 <= p < 64 && #[trigger] attackers.has(p);
                assert(attackers.has(p));
                assert(bishop_target(k, occ, p) && rook_target(k, occ, p) || true);
                assert(!en_passant_clear(*board, source.index as int, en_passant.to_capture.index as int, en_passant.to_move.index as int));
            }
        }
        attackers.is_empty()
    }
}

/// Castling of the king on `king_from` to `king_to` with the rook on `rook` is open: king and
/// rook of the side to move stand there, nothing stands between them, and no square the king
/// passes over or goes to is attacked. A castling right alone is not enough: a FEN text may
/// keep the right for a king or rook that is not on its first square, and such a castling
/// would move a piece that is not there, so it is not listed.
pub open spec fn castling_open(board: Board, king_from: int, king_to: int, rook: int) -> bool {
    let a = board.gamestate.active;
    &&& board.pieces@[king_from] == Some(ColoredPiece { piece: Piece::King, color: a })
    &&& board.pieces@[rook] == Some(ColoredPiece { piece: Piece::Rook, color: a })
    &&& forall|k: int| #[trigger] between_target(king_from, rook, k) ==> board.pieces@[k] is None
    &&& forall|k: int| #[trigger] between_target(king_from, king_to, k) ==> !king_danger(board, k)
    &&& !king_danger(board, king_to)
}

/// A word with no square in it is zero.
proof fn lemma_empty_board(x: Bitboard)
    requires
        forall|j: int| 0 <= j < 64 ==> !#[trigger] x.has(j),
    ensures
        x.0 == 0,
{
    assert forall|i: u64| i < 64 implies crate::bits::bit_set(x.0, i) == crate::bits::bit_set(0, i) by {
        assert(!x.has(i as int));
        crate::bits::lemma_bit_zero(i);
    }
    crate::bits::lemma_bits_ext(x.0, 0);
}

/// Adds the castling move of the king from `king_from` to `king_to` if the squares between
/// king and rook are empty, the squares the king passes are not attacked, and king and rook
/// stand on their squares (a right whose king or rook is missing gives no move).
fn push_castling(generator: &mut NewMoveGenerator, board: &Board, king_from: u8, king_to: u8, rook_square: u8, attacked: Bitboard)
    requires
        old(generator).valid_for(*board),
        board.consistent(),
        king_from < 64,
        king_to < 64,
        rook_square < 64,
        crate::board::moves::castle_target(king_to as int),
        crate::board::moves::rook_from(king_to as int) == rook_square,
        king_from != rook_square,
        king_from != crate::board::moves::rook_to(king_to as int),
        crate::lookup::between_target(king_from as int, rook_square as int, king_to as int),
        crate::lookup::between_target(king_from as int, rook_square as int, crate::board::moves::rook_to(king_to as int)),
        forall|j: int| 0 <= j < 64 ==> (#[trigger] attacked.has(j) <==> king_danger(*board, j)),
        castling_right(*board, king_to as int),
        king_from == (if board.gamestate.active == Color::White { 4int } else { 60int }),
        pin_check_for(*board, board.gamestate.active).checkers.0 == 0,
        forall|k: int| 0 <= k < old(generator).moves@.len() ==> !((#[trigger] old(generator).moves@[k]).spec_piece() == Piece::King
            && old(generator).moves@[k].spec_is_castling() && old(generator).moves@[k].spec_to() == king_to),
    ensures
        final(generator).valid_for(*board),
        final(generator).index == old(generator).index,
        extends(final(generator).moves@, old(generator).moves@),
        forall|k: int| old(generator).moves@.len() <= k < final(generator).moves@.len()
            ==> (#[trigger] final(generator).moves@[k]).spec_piece() == Piece::King
            && final(generator).moves@[k].spec_is_castling() && final(generator).moves@[k].spec_to() == king_to,
        castling_open(*board, king_from as int, king_to as int, rook_square as int) ==> lists_castling(
            final(generator).moves@,
            king_from as int,
            king_to as int,
        ),
        !castling_open(*board, king_from as int, king_to as int, rook_square as int) ==> final(generator).moves@
            == old(generator).moves@,
        final(generator).moves@.len() <= old(generator).moves@.len() + 1,
{
    let from = Square::by_index(king_from);
    let to = Square::by_index(king_to);
    let rook = Square::by_index(rook_square);
    let all_occupied = *board.get_all_occupied();

    let between = from.get_between(rook);
    let nothing_inbetween = (between & all_occupied).is_empty();

    let between_move = from.get_between(to);
    let to_board = Bitboard::from_square(to);
    let passed = between_move | to_board;
    let attacked_through_move = !(passed & attacked).is_empty();

    let king_home = match board.get_piece_type(from) {
        Some(colored_piece) => colored_piece.piece == Piece::King && colored_piece.color == board.gamestate.active,
        None => false,
    };
    let rook_home = match board.get_piece_type(rook) {
        Some(colored_piece) => colored_piece.piece == Piece::Rook && colored_piece.color == board.gamestate.active,
        None => false,
    };

    if nothing_inbetween && !attacked_through_move && king_home && rook_home {
        let mov = Move::castling(from, to);
        proof {
            reveal(crate::board::squares_agree);
            assert forall|k: int| #[trigger] between_target(king_from as int, rook_square as int, k) implies board.pieces@[k] is None by {
                crate::bitboard::lemma_set_ops(between, all_occupied, k);
                crate::bits::lemma_bit_zero(k as u64);
            }
            let rt = crate::board::moves::rook_to(king_to as int);
            assert(between.has(king_to as int));
            assert(between.has(rt));
            crate::bitboard::lemma_set_ops(between, all_occupied, king_to as int);
            crate::bitboard::lemma_set_ops(between, all_occupied, rt);
            crate::bits::lemma_bit_zero(king_to as u64);
            crate::bits::lemma_bit_zero(rt as u64);
            assert(board.pieces@[king_to as int] is None);
            assert(board.pieces@[rt] is None);
            crate::generation::mov::lemma_masks(mov.0);
            assert forall|k: int| #[trigger] between_target(king_from as int, king_to as int, k) implies !king_danger(*board, k) by {
                assert(passed.has(k)) by {
                    crate::bitboard::lemma_set_ops(between_move, to_board, k);
                }
                crate::bitboard::lemma_set_ops(passed, attacked, k);
                crate::bits::lemma_bit_zero(k as u64);
            }
            assert(passed.has(king_to as int)) by {
                crate::bitboard::lemma_set_ops(between_move, to_board, king_to as int);
            }
            crate::bitboard::lemma_set_ops(passed, attacked, king_to as int);
            assert(!king_danger(*board, king_to as int));
            assert(generated_ok(*board, mov));
            assert forall|k: int| 0 <= k < generator.moves@.len() implies #[trigger] generator.moves@[k] != mov by {
                assert(!(generator.moves@[k].spec_piece() == Piece::King && generator.moves@[k].spec_is_castling()
                    && generator.moves@[k].spec_to() == king_to));
            }
            lemma_push_new(generator.moves@, mov);
        }
        let ghost before = generator.moves@;
        generator.push(mov);
        proof {
            assert(generator.moves@[before.len() as int] == mov);
        }
    }
    proof {
        reveal(crate::board::squares_agree);
        let open = castling_open(*board, king_from as int, king_to as int, rook_square as int);
        if !nothing_inbetween {
            let x = Bitboard(between.0 & all_occupied.0);
            if forall|k: int| #[trigger] between_target(king_from as int, rook_square as int, k) ==> board.pieces@[k] is None {
                assert forall|j: int| 0 <= j < 64 implies !#[trigger] x.has(j) by {
                    crate::bitboard::lemma_set_ops(between, all_occupied, j);
                }
                lemma_empty_board(x);
            }
        }
        if attacked_through_move {
            let x = Bitboard(passed.0 & attacked.0);
            if open {
                assert forall|j: int| 0 <= j < 64 implies !#[trigger] x.has(j) by {
                    crate::bitboard::lemma_set_ops(passed, attacked, j);
                    crate::bitboard::lemma_set_ops(between_move, to_board, j);
                }
                lemma_empty_board(x);
            }
        }
        if nothing_inbetween && !attacked_through_move {
            assert forall|k: int| #[trigger] between_target(king_from as int, rook_square as int, k) implies board.pieces@[k] is None by {
                crate::bitboard::lemma_set_ops(between, all_occupied, k);
                crate::bits::lemma_bit_zero(k as u64);
            }
            assert forall|k: int| #[trigger] between_target(king_from as int, king_to as int, k) implies !king_danger(*board, k) by {
                crate::bitboard::lemma_set_ops(between_move, to_board, k);
                crate::bitboard::lemma_set_ops(passed, attacked, k);
                crate::bits::lemma_bit_zero(k as u64);
            }
            crate::bitboard::lemma_set_ops(between_move, to_board, king_to as int);
            crate::bitboard::lemma_set_ops(passed, attacked, king_to as int);
            crate::bits::lemma_bit_zero(king_to as u64);
        }
    }
}

pub struct KingGenerator;

impl PieceGenerator for KingGenerator {
    open spec fn moves_piece() -> Piece {
        Piece::King
    }

    fn pseudo_legals(board: &Board, source: Square, allowed: Bitboard, blockers: Bitboard) -> (r: Bitboard)
        ensures
            forall|j: int| #[trigger] r.has(j) <==> (king_target(source.index as int, j) && allowed.has(j)),
    {
        king_pseudo_legals(source, allowed)
    }

    /// Adds the king's steps to squares not attacked, then, when not in check, the castlings
    /// that are open: queenside before kingside, each only with king and rook on their first
    /// squares.
    fn legals<T: CheckType>(generator: &mut NewMoveGenerator, board: &Board, state: PinCheckState)
        ensures
            king_steps_listed(*board, final(generator).moves@),
            !T::IN_CHECK ==> castlings_listed(*board, final(generator).moves@),
            forall|i: int, j: int|
                old(generator).moves@.len() <= i < j < final(generator).moves@.len() && (#[trigger] final(generator).moves@[i]).spec_is_castling()
                    ==> (#[trigger] final(generator).moves@[j]).spec_is_castling() && final(generator).moves@[i].spec_to()
                    < final(generator).moves@[j].spec_to(),
    {
        let active = board.gamestate.active;
        let king_square = board.get_king_square(active);
        let own_occupied = *board.get_occupied(active);
        let attacked = board.attacked();

        let blocked = own_occupied | attacked;
        let allowed = blocked.not();
        proof {
            reveal(crate::board::squares_agree);
            assert forall|j: int| #[trigger] allowed.has(j) implies !(board.pieces@[j] matches Some(cp) && cp.color == active) by {
                crate::bitboard::lemma_set_ops(blocked, blocked, j);
                crate::bitboard::lemma_set_ops(own_occupied, attacked, j);
            }
            crate::board::lemma_piece_board_has(*board, active, Piece::King, king_square.index as int);
        }

        // Generate all pseudo legal moves for the king.
        let moves = king_pseudo_legals(king_square, allowed);
        proof {
            assert forall|j: int| #[trigger] moves.has(j) implies !king_danger(*board, j) by {
                crate::bitboard::lemma_set_ops(blocked, blocked, j);
                crate::bitboard::lemma_set_ops(own_occupied, attacked, j);
            }
        }
        proof {
            assert forall|k: int| 0 <= k < generator.moves@.len() implies !plain_move(#[trigger] generator.moves@[k], Piece::King, king_square.index as int) by {
                assert(generator.moves@[k].spec_piece() != Piece::King);
            }
        }
        push_targets(generator, board, Piece::King, king_square, moves);
        let ghost stepped = generator.moves@;
        proof {
            assert forall|k: int| 0 <= k < stepped.len() implies !((#[trigger] stepped[k]).spec_piece() == Piece::King
                && stepped[k].spec_is_castling()) by {
                if k < old(generator).moves@.len() {
                    assert(stepped[k] == old(generator).moves@[k]);
                    assert(old(generator).moves@[k].spec_piece() != Piece::King);
                } else {
                    assert(plain_move(stepped[k], Piece::King, king_square.index as int));
                }
            }
        }
        proof {
            let k = king_square.index as int;
            assert forall|j: int|
                #[trigger] king_target(k, j) && !(board.pieces@[j] matches Some(cp) && cp.color == active) && !king_danger(*board, j)
                implies lists_step(stepped, Piece::King, k, j) by {
                crate::bitboard::lemma_set_ops(blocked, blocked, j);
                crate::bitboard::lemma_set_ops(own_occupied, attacked, j);
                assert(moves.has(j));
            }
        }

        if !T::IN_CHECK {
            if active == Color::White {
                if board.gamestate.white_queenside {
                    push_castling(generator, board, crate::bitboard::constants::E1, crate::bitboard::constants::C1, crate::bitboard::constants::A1, attacked);
                }
                let ghost g1 = generator.moves@;
                proof {
                    assert forall|k: int| 0 <= k < g1.len() implies !((#[trigger] g1[k]).spec_piece() == Piece::King
                        && g1[k].spec_is_castling() && g1[k].spec_to() != 2) by {
                        if k < stepped.len() {
                            assert(g1[k] == stepped[k]);
                        }
                    }
                }
                if board.gamestate.white_kingside {
                    push_castling(generator, board, crate::bitboard::constants::E1, crate::bitboard::constants::G1, crate::bitboard::constants::H1, attacked);
                }
                proof {
                    assert forall|i: int, j: int|
                        old(generator).moves@.len() <= i < j < generator.moves@.len() && (#[trigger] generator.moves@[i]).spec_is_castling()
                        implies (#[trigger] generator.moves@[j]).spec_is_castling() && generator.moves@[i].spec_to()
                        < generator.moves@[j].spec_to() by {
                        if i < stepped.len() {
                            assert(generator.moves@[i] == stepped[i]);
                            assert(plain_move(stepped[i], Piece::King, king_square.index as int));
                        }
                        if i < g1.len() {
                            assert(generator.moves@[i] == g1[i]);
                        }
                    }
                    if board.gamestate.white_queenside && castling_open(*board, 4, 2, 0) {
                        lemma_castling_kept(generator.moves@, g1, 4, 2);
                    }
                }
            } else {
                if board.gamestate.black_queenside {
                    push_castling(generator, board, crate::bitboard::constants::E8, crate::bitboard::constants::C8, crate::bitboard::constants::A8, attacked);
                }
                let ghost g1 = generator.moves@;
                proof {
                    assert forall|k: int| 0 <= k < g1.len() implies !((#[trigger] g1[k]).spec_piece() == Piece::King
                        && g1[k].spec_is_castling() && g1[k].spec_to() != 58) by {
                        if k < stepped.len() {
                            assert(g1[k] == stepped[k]);
                        }
                    }
                }
                if board.gamestate.black_kingside {
                    push_castling(generator, board, crate::bitboard::constants::E8, crate::bitboard::constants::G8, crate::bitboard::constants::H8, attacked);
                }
                proof {
                    assert forall|i: int, j: int|
                        old(generator).moves@.len() <= i < j < generator.moves@.len() && (#[trigger] generator.moves@[i]).spec_is_castling()
                        implies (#[trigger] generator.moves@[j]).spec_is_castling() && generator.moves@[i].spec_to()
                        < generator.moves@[j].spec_to() by {
                        if i < stepped.len() {
                            assert(generator.moves@[i] == stepped[i]);
                            assert(plain_move(stepped[i], Piece::King, king_square.index as int));
                        }
                        if i < g1.len() {
                            assert(generator.moves@[i] == g1[i]);
                        }
                    }
                    if board.gamestate.black_queenside && castling_open(*board, 60, 58, 56) {
                        lemma_castling_kept(generator.moves@, g1, 60, 58);
                    }
                }
            }
        }
        proof {
            let k = king_square.index as int;
            assert forall|j: int|
                #[trigger] king_target(k, j) && !(board.pieces@[j] matches Some(cp) && cp.color == active) && !king_danger(*board, j)
                implies lists_step(generator.moves@, Piece::King, k, j) by {
                lemma_lists_kept(generator.moves@, stepped, Piece::King, k, j);
            }
        }
    }
}

impl NewMoveGenerator {
    /// The moves of the side to move: those of every piece when not in check, those that end
    /// a single check, and only king moves against a double check. Every move listed keeps to
    /// these rules (`generated_ok`) and every move they allow is listed (`moves_listed`).
    pub fn new(board: &Board) -> (r: Self)
        requires
            board.can_generate(),
        ensures
            r.valid_for(*board),
            r.index == 0,
            moves_listed(*board, r.moves@),
    {
        let mut generator = Self { moves: Vec::new(), size: 0, index: 0 };

        let state = board.get_pin_check_state();
        let checkers = state.checkers;
        if checkers.is_empty() {
            PawnGenerator::legals::<NotInCheck>(&mut generator, board, state);
            let ghost g1 = generator.moves@;
            KnightGenerator::legals::<NotInCheck>(&mut generator, board, state);
            let ghost g2 = generator.moves@;
            BishopGenerator::legals::<NotInCheck>(&mut generator, board, state);
            let ghost g3 = generator.moves@;
            RookGenerator::legals::<NotInCheck>(&mut generator, board, state);
            let ghost g4 = generator.moves@;
            QueenGenerator::legals::<NotInCheck>(&mut generator, board, state);
            let ghost g5 = generator.moves@;
            KingGenerator::legals::<NotInCheck>(&mut generator, board, state);
            proof {
                lemma_listed_through(*board, g1, g2, g3, g4, g5, generator.moves@);
            }
        } else if checkers.count_ones() == 1 {
            PawnGenerator::legals::<InCheck>(&mut generator, board, state);
            let ghost g1 = generator.moves@;
            KnightGenerator::legals::<InCheck>(&mut generator, board, state);
            let ghost g2 = generator.moves@;
            BishopGenerator::legals::<InCheck>(&mut generator, board, state);
            let ghost g3 = generator.moves@;
            RookGenerator::legals::<InCheck>(&mut generator, board, state);
            let ghost g4 = generator.moves@;
            QueenGenerator::legals::<InCheck>(&mut generator, board, state);
            let ghost g5 = generator.moves@;
            KingGenerator::legals::<InCheck>(&mut generator, board, state);
            proof {
                lemma_listed_through(*board, g1, g2, g3, g4, g5, generator.moves@);
            }
        } else {
            KingGenerator::legals::<InCheck>(&mut generator, board, state);
            proof {
                if popcount(checkers.0) == 0 {
                    crate::bits::lemma_popcount_zero(checkers.0);
                }
                lemma_nothing_but_king(*board, generator.moves@);
            }
        }

        generator
    }
}

} // verus!
