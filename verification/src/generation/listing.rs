use vstd::prelude::*;

use crate::bits::popcount;
use crate::board::attacks::{king_square_of, pin_check_for};
use crate::board::color::Color;
use crate::board::piece::{ColoredPiece, Piece};
use crate::board::Board;
use crate::lookup::{direction_of, king_target, on_ray};

use super::mov::Move;
use super::new_gen::{castling_open, en_passant_clear, ends_check, king_danger, pseudo_target};

verus! {

/// `m` takes `piece` from `from` to `to`, and is no castling.
pub open spec fn step_of(m: Move, piece: Piece, from: int, to: int) -> bool {
    &&& m.spec_piece() == piece
    &&& m.spec_from() == from
    &&& m.spec_to() == to
    &&& !m.spec_is_castling()
}

/// Some move of `moves` takes `piece` from `from` to `to`, without castling.
pub open spec fn lists_step(moves: Seq<Move>, piece: Piece, from: int, to: int) -> bool {
    exists|k: int| 0 <= k < moves.len() && #[trigger] step_of(moves[k], piece, from, to)
}

/// Some move of `moves` takes a pawn from `from` to `to` and promotes it to `promoted`.
pub open spec fn lists_promotion(moves: Seq<Move>, from: int, to: int, promoted: Piece) -> bool {
    exists|k: int| 0 <= k < moves.len() && #[trigger] step_of(moves[k], Piece::Pawn, from, to) && moves[k].spec_is_promotion()
        && moves[k].spec_promoted() == promoted
}

/// The pawn step from `from` to `to` is in `moves`: onto the last rank as the four promotions,
/// to queen, rook, bishop and knight, elsewhere as one move.
pub open spec fn pawn_listed(moves: Seq<Move>, from: int, to: int) -> bool {
    if to / 8 == 0 || to / 8 == 7 {
        &&& lists_promotion(moves, from, to, Piece::Queen)
        &&& lists_promotion(moves, from, to, Piece::Rook)
        &&& lists_promotion(moves, from, to, Piece::Bishop)
        &&& lists_promotion(moves, from, to, Piece::Knight)
    } else {
        lists_step(moves, Piece::Pawn, from, to)
    }
}

/// The step of `piece` from `from` to `to` is in `moves` (as a pawn's step for a pawn).
pub open spec fn listed(moves: Seq<Move>, piece: Piece, from: int, to: int) -> bool {
    if piece == Piece::Pawn {
        pawn_listed(moves, from, to)
    } else {
        lists_step(moves, piece, from, to)
    }
}

/// `longer` starts with the moves of `shorter`.
pub open spec fn extends(longer: Seq<Move>, shorter: Seq<Move>) -> bool {
    &&& shorter.len() <= longer.len()
    &&& forall|k: int| 0 <= k < shorter.len() ==> #[trigger] longer[k] == shorter[k]
}

/// A move listed in `shorter` is still listed in `longer`.
pub(crate) proof fn lemma_lists_kept(longer: Seq<Move>, shorter: Seq<Move>, piece: Piece, from: int, to: int)
    requires
        extends(longer, shorter),
        lists_step(shorter, piece, from, to),
    ensures
        lists_step(longer, piece, from, to),
{
    let k = choose|k: int| 0 <= k < shorter.len() && #[trigger] step_of(shorter[k], piece, from, to);
    assert(longer[k] == shorter[k]);
}

/// Some move of `moves` castles the king from `from` to `to`.
pub open spec fn lists_castling(moves: Seq<Move>, from: int, to: int) -> bool {
    exists|k: int| 0 <= k < moves.len() && #[trigger] moves[k].spec_is_castling() && moves[k].spec_piece()
        == Piece::King && moves[k].spec_from() == from && moves[k].spec_to() == to
}

/// A castling listed in `shorter` is still listed in `longer`.
pub(crate) proof fn lemma_castling_kept(longer: Seq<Move>, shorter: Seq<Move>, from: int, to: int)
    requires
        extends(longer, shorter),
        lists_castling(shorter, from, to),
    ensures
        lists_castling(longer, from, to),
{
    let k = choose|k: int| 0 <= k < shorter.len() && #[trigger] shorter[k].spec_is_castling() && shorter[k].spec_piece()
        == Piece::King && shorter[k].spec_from() == from && shorter[k].spec_to() == to;
    assert(longer[k] == shorter[k]);
}

/// A step listed in `shorter` is still listed in `longer`.
pub(crate) proof fn lemma_listed_kept(longer: Seq<Move>, shorter: Seq<Move>, piece: Piece, from: int, to: int)
    requires
        extends(longer, shorter),
        listed(shorter, piece, from, to),
    ensures
        listed(longer, piece, from, to),
{
    if piece == Piece::Pawn && (to / 8 == 0 || to / 8 == 7) {
        assert forall|p: Piece| #[trigger] lists_promotion(shorter, from, to, p) implies lists_promotion(longer, from, to, p) by {
            let k = choose|k: int| 0 <= k < shorter.len() && #[trigger] step_of(shorter[k], Piece::Pawn, from, to)
                && shorter[k].spec_is_promotion() && shorter[k].spec_promoted() == p;
            assert(longer[k] == shorter[k]);
        }
    } else {
        lemma_lists_kept(longer, shorter, piece, from, to);
    }
}

/// Every move of a `piece` (not the king) of the side to move that the rules of this generator
/// allow is listed in `moves`: from a square where such a piece stands to a square it reaches,
/// that holds no piece of its side and ends any check; a pinned piece moves, when there is no
/// check, along the line from the king through it, and a pinned knight not at all.
pub open spec fn piece_moves_listed(board: Board, moves: Seq<Move>, piece: Piece) -> bool {
    let a = board.gamestate.active;
    let st = pin_check_for(board, a);
    let k = king_square_of(board, a);
    forall|p: int, j: int|
        board.pieces@[p] == Some(ColoredPiece { piece, color: a }) && pseudo_target(board, piece, p, board.occupied.0, j)
            && !(board.pieces@[j] matches Some(cp) && cp.color == a) && ends_check(board, j) && (st.pinned.has(p)
            ==> piece != Piece::Knight && st.checkers.0 == 0 && on_ray(k, direction_of(k, p), j))
            ==> #[trigger] listed(moves, piece, p, j)
}

/// The moves listed in `shorter` are still listed in `longer`.
pub(crate) proof fn lemma_piece_moves_kept(board: Board, longer: Seq<Move>, shorter: Seq<Move>, piece: Piece)
    requires
        extends(longer, shorter),
        piece_moves_listed(board, shorter, piece),
    ensures
        piece_moves_listed(board, longer, piece),
{
    let a = board.gamestate.active;
    let st = pin_check_for(board, a);
    let k = king_square_of(board, a);
    assert forall|p: int, j: int|
        board.pieces@[p] == Some(ColoredPiece { piece, color: a }) && pseudo_target(board, piece, p, board.occupied.0, j)
            && !(board.pieces@[j] matches Some(cp) && cp.color == a) && ends_check(board, j) && (st.pinned.has(p)
            ==> piece != Piece::Knight && st.checkers.0 == 0 && on_ray(k, direction_of(k, p), j))
        implies #[trigger] listed(longer, piece, p, j) by {
        assert(listed(shorter, piece, p, j));
        lemma_listed_kept(longer, shorter, piece, p, j);
    }
}

/// Some move of `moves` takes en passant with the pawn from `from` to `to`.
pub open spec fn lists_en_passant(moves: Seq<Move>, from: int, to: int) -> bool {
    exists|k: int| 0 <= k < moves.len() && #[trigger] moves[k].spec_is_en_passant() && moves[k].spec_piece()
        == Piece::Pawn && moves[k].spec_from() == from && moves[k].spec_to() == to
}

/// An en passant capture listed in `shorter` is still listed in `longer`.
pub(crate) proof fn lemma_en_passant_kept(longer: Seq<Move>, shorter: Seq<Move>, from: int, to: int)
    requires
        extends(longer, shorter),
        lists_en_passant(shorter, from, to),
    ensures
        lists_en_passant(longer, from, to),
{
    let k = choose|k: int| 0 <= k < shorter.len() && #[trigger] shorter[k].spec_is_en_passant() && shorter[k].spec_piece()
        == Piece::Pawn && shorter[k].spec_from() == from && shorter[k].spec_to() == to;
    assert(longer[k] == shorter[k]);
}

/// Every en passant capture open to the side to move is listed in `moves`: from a pawn of its
/// side beside the pawn that just made a double step, onto the empty square that pawn passed,
/// when no line onto the king opens.
pub open spec fn en_passants_listed(board: Board, moves: Seq<Move>) -> bool {
    let a = board.gamestate.active;
    match board.gamestate.en_passant {
        Some(ep) => ep.to_move.wf() && ep.to_capture.wf() ==> {
            let c = ep.to_capture.index as int;
            let t = ep.to_move.index as int;
            forall|p: int|
                popcount(pin_check_for(board, a).checkers.0) <= 1 && 0 <= p < 64 && board.pieces@[p] == Some(ColoredPiece { piece: Piece::Pawn, color: a }) && p / 8 == c / 8 && (p
                    % 8 == c % 8 - 1 || p % 8 == c % 8 + 1) && board.pieces@[c] == Some(
                    ColoredPiece { piece: Piece::Pawn, color: a.opposite() },
                ) && board.pieces@[t] is None && en_passant_clear(board, p, c, t) ==> #[trigger] lists_en_passant(moves, p, t)
        },
        None => true,
    }
}

/// The en passant captures listed in `shorter` are still listed in `longer`.
pub(crate) proof fn lemma_en_passants_kept(board: Board, longer: Seq<Move>, shorter: Seq<Move>)
    requires
        extends(longer, shorter),
        en_passants_listed(board, shorter),
    ensures
        en_passants_listed(board, longer),
{
    let a = board.gamestate.active;
    if let Some(ep) = board.gamestate.en_passant {
        if ep.to_move.wf() && ep.to_capture.wf() {
            let c = ep.to_capture.index as int;
            let t = ep.to_move.index as int;
            assert forall|p: int|
                popcount(pin_check_for(board, a).checkers.0) <= 1 && 0 <= p < 64 && board.pieces@[p] == Some(ColoredPiece { piece: Piece::Pawn, color: a }) && p / 8 == c / 8 && (p
                    % 8 == c % 8 - 1 || p % 8 == c % 8 + 1) && board.pieces@[c] == Some(
                    ColoredPiece { piece: Piece::Pawn, color: a.opposite() },
                ) && board.pieces@[t] is None && en_passant_clear(board, p, c, t)
                implies #[trigger] lists_en_passant(longer, p, t) by {
                assert(lists_en_passant(shorter, p, t));
                lemma_en_passant_kept(longer, shorter, p, t);
            }
        }
    }
}

/// Every move the rules of this generator allow the side to move is listed in `moves`: the
/// moves of each kind of piece, the en passant captures, the king's steps and, out of check,
/// the castlings.
pub open spec fn moves_listed(board: Board, moves: Seq<Move>) -> bool {
    &&& piece_moves_listed(board, moves, Piece::Pawn)
    &&& piece_moves_listed(board, moves, Piece::Knight)
    &&& piece_moves_listed(board, moves, Piece::Bishop)
    &&& piece_moves_listed(board, moves, Piece::Rook)
    &&& piece_moves_listed(board, moves, Piece::Queen)
    &&& en_passants_listed(board, moves)
    &&& king_steps_listed(board, moves)
    &&& pin_check_for(board, board.gamestate.active).checkers.0 == 0 ==> castlings_listed(board, moves)
}

/// Every step of the king of the side to move to a square that holds no piece of its side and
/// that the other side does not attack is listed in `moves`.
pub open spec fn king_steps_listed(board: Board, moves: Seq<Move>) -> bool {
    let a = board.gamestate.active;
    let k = king_square_of(board, a);
    forall|j: int|
        #[trigger] king_target(k, j) && !(board.pieces@[j] matches Some(cp) && cp.color == a) && !king_danger(board, j)
            ==> lists_step(moves, Piece::King, k, j)
}

/// Every castling that the side to move still has the right to and that is open is listed in
/// `moves`.
pub open spec fn castlings_listed(board: Board, moves: Seq<Move>) -> bool {
    let g = board.gamestate;
    &&& g.active == Color::White && g.white_queenside && castling_open(board, 4, 2, 0) ==> lists_castling(moves, 4, 2)
    &&& g.active == Color::White && g.white_kingside && castling_open(board, 4, 6, 7) ==> lists_castling(moves, 4, 6)
    &&& g.active == Color::Black && g.black_queenside && castling_open(board, 60, 58, 56) ==> lists_castling(moves, 60, 58)
    &&& g.active == Color::Black && g.black_kingside && castling_open(board, 60, 62, 63) ==> lists_castling(moves, 60, 62)
}

/// The lists after the pawns (`g1`), knights, bishops, rooks, queens (`g5`) and the king
/// (`g6`) added their moves, each starting with the one before: everything is listed at the end.
pub(crate) proof fn lemma_listed_through(board: Board, g1: Seq<Move>, g2: Seq<Move>, g3: Seq<Move>, g4: Seq<Move>, g5: Seq<Move>, g6: Seq<Move>)
    requires
        extends(g2, g1),
        extends(g3, g2),
        extends(g4, g3),
        extends(g5, g4),
        extends(g6, g5),
        piece_moves_listed(board, g1, Piece::Pawn),
        en_passants_listed(board, g1),
        piece_moves_listed(board, g2, Piece::Knight),
        piece_moves_listed(board, g3, Piece::Bishop),
        piece_moves_listed(board, g4, Piece::Rook),
        piece_moves_listed(board, g5, Piece::Queen),
        king_steps_listed(board, g6),
        pin_check_for(board, board.gamestate.active).checkers.0 == 0 ==> castlings_listed(board, g6),
    ensures
        moves_listed(board, g6),
{
    assert(extends(g6, g1));
    assert(extends(g6, g2));
    assert(extends(g6, g3));
    assert(extends(g6, g4));
    lemma_piece_moves_kept(board, g6, g1, Piece::Pawn);
    lemma_en_passants_kept(board, g6, g1);
    lemma_piece_moves_kept(board, g6, g2, Piece::Knight);
    lemma_piece_moves_kept(board, g6, g3, Piece::Bishop);
    lemma_piece_moves_kept(board, g6, g4, Piece::Rook);
    lemma_piece_moves_kept(board, g6, g5, Piece::Queen);
}

/// Against two or more checkers no piece but the king has a move to list.
pub(crate) proof fn lemma_nothing_but_king(board: Board, moves: Seq<Move>)
    requires
        popcount(pin_check_for(board, board.gamestate.active).checkers.0) > 1,
        king_steps_listed(board, moves),
    ensures
        moves_listed(board, moves),
{
}

} // verus!
