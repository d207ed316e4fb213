use vstd::prelude::*;

use crate::bits::{bit_set, lemma_bit_xor};
use crate::board::attacks::{attack_target, attacked_by, attacks_from_square};
use crate::board::moves::{castle_target, rook_from, rook_to};
use crate::board::piece::{ColoredPiece, Piece};
use crate::board::Board;
use crate::lookup::utils::Direction;
use crate::lookup::{dist, lemma_rf_index, on_ray, slide_target};

use super::mov::Move;
use super::new_gen::{generated_ok, king_danger};

verus! {

/// Every square before `j` on the ray from `i` through `j` that `before` fills is filled in
/// `after` too.
pub open spec fn fills_less(i: int, j: int, before: u64, after: u64) -> bool {
    forall|d: Direction, m: int|
        on_ray(i, d, j) && #[trigger] on_ray(i, d, m) && dist(i, m) < dist(i, j) && bit_set(before, m as u64) ==> bit_set(
            after,
            m as u64,
        )
}

/// A slide that finds its way free with `after` occupied finds it free with `before`.
proof fn lemma_slide_kept(i: int, d: Direction, before: u64, after: u64, j: int)
    requires
        slide_target(i, d, after, j),
        fills_less(i, j, before, after),
    ensures
        slide_target(i, d, before, j),
{
    assert forall|m: int| #[trigger] on_ray(i, d, m) && dist(i, m) < dist(i, j) implies !bit_set(before, m as u64) by {
        assert(!bit_set(after, m as u64));
    }
}

/// An attack that reaches `j` with `after` occupied reaches it with `before` occupied.
pub proof fn lemma_attack_kept(piece: Piece, color: crate::board::color::Color, p: int, before: u64, after: u64, j: int)
    requires
        attack_target(piece, color, p, after, j),
        fills_less(p, j, before, after),
    ensures
        attack_target(piece, color, p, before, j),
{
    if slide_target(p, Direction::North, after, j) {
        lemma_slide_kept(p, Direction::North, before, after, j);
    }
    if slide_target(p, Direction::South, after, j) {
        lemma_slide_kept(p, Direction::South, before, after, j);
    }
    if slide_target(p, Direction::East, after, j) {
        lemma_slide_kept(p, Direction::East, before, after, j);
    }
    if slide_target(p, Direction::West, after, j) {
        lemma_slide_kept(p, Direction::West, before, after, j);
    }
    if slide_target(p, Direction::NorthEast, after, j) {
        lemma_slide_kept(p, Direction::NorthEast, before, after, j);
    }
    if slide_target(p, Direction::NorthWest, after, j) {
        lemma_slide_kept(p, Direction::NorthWest, before, after, j);
    }
    if slide_target(p, Direction::SouthEast, after, j) {
        lemma_slide_kept(p, Direction::SouthEast, before, after, j);
    }
    if slide_target(p, Direction::SouthWest, after, j) {
        lemma_slide_kept(p, Direction::SouthWest, before, after, j);
    }
}

/// The corner a castling rook leaves never lies between another square and the king's target.
proof fn lemma_corner_not_between(p: int, d: Direction, to: int)
    requires
        castle_target(to),
        on_ray(p, d, to),
    ensures
        !(on_ray(p, d, rook_from(to)) && dist(p, rook_from(to)) < dist(p, to)),
{
    lemma_rf_index(p);
}

/// What a king move does to the squares: it leaves `from` empty and stands on `to`; a castling
/// rook leaves its corner for the square the king passed; every other square keeps its piece.
proof fn lemma_king_move_squares(s: Seq<Option<ColoredPiece>>, m: Move, a: crate::board::color::Color, t: Seq<Option<ColoredPiece>>)
    requires
        s.len() == 64,
        crate::board::moves::move_fits(s, m, a),
        m.spec_piece() == Piece::King,
        !m.spec_is_promotion(),
        !m.spec_is_en_passant(),
        m.spec_is_capture() ==> m.spec_capture_square() == m.spec_to(),
        t == crate::board::moves::after_move(s, m, a),
    ensures
        t.len() == 64,
        t[m.spec_from() as int] is None,
        t[m.spec_to() as int] == Some(ColoredPiece { piece: Piece::King, color: a }),
        m.spec_is_castling() ==> t[rook_from(m.spec_to() as int)] is None && t[rook_to(m.spec_to() as int)] == Some(
            ColoredPiece { piece: Piece::Rook, color: a },
        ),
        forall|q: int|
            0 <= q < 64 && q != m.spec_from() && q != m.spec_to() && !(m.spec_is_castling() && (q == rook_from(
                m.spec_to() as int,
            ) || q == rook_to(m.spec_to() as int))) ==> #[trigger] t[q] == s[q],
{
    crate::generation::mov::lemma_masks(m.0);
    let from = m.spec_from() as int;
    let to = m.spec_to() as int;
    let s1 = crate::board::moves::after_capture(s, m);
    let s2 = s1.update(from, None).update(to, Some(ColoredPiece { piece: Piece::King, color: a }));
    assert(t == crate::board::moves::place_piece(s1, m, a));
    if m.spec_is_castling() {
        assert(t == s2.update(rook_from(to), None).update(rook_to(to), Some(ColoredPiece { piece: Piece::Rook, color: a })));
    } else {
        assert(t == s2);
    }
    assert forall|q: int| 0 <= q < 64 && q != to implies #[trigger] s1[q] == s[q] by {}
}

/// Law: a king move that the generator hands out leaves the king, once the move is made, on a
/// square that no piece of the other side attacks.
pub proof fn lemma_king_move_safe(board: Board, m: Move, after: Board)
    requires
        board.consistent(),
        generated_ok(board, m),
        m.spec_piece() == Piece::King,
        after.made_from(board, m),
    ensures
        !attacked_by(after, board.gamestate.active.opposite(), after.occupied.0, m.spec_to() as int),
{
    reveal(crate::board::squares_agree);
    let a = board.gamestate.active;
    let o = a.opposite();
    let from = m.spec_from() as int;
    let to = m.spec_to() as int;
    let occ1 = board.occupied.0 ^ board.piece_board(a, Piece::King).0;
    let occ2 = after.occupied.0;
    let s = board.pieces@;
    let t = after.pieces@;
    if attacked_by(after, o, occ2, to) {
        let p = choose|p: int| 0 <= p < 64 && attacks_from_square(after, o, occ2, p, to);
        let cp = t[p]->Some_0;
        lemma_king_move_squares(s, m, a, t);
        assert(t[p] == Some(cp) && cp.color == o);
        assert(o != a);
        assert(t[p] == s[p]);
        assert(fills_less(p, to, occ1, occ2)) by {
            assert forall|d: Direction, q: int| on_ray(p, d, to) && #[trigger] on_ray(p, d, q) && dist(p, q) < dist(p, to) && bit_set(occ1, q as u64)
                implies bit_set(occ2, q as u64) by {
                lemma_bit_xor(board.occupied.0, board.piece_board(a, Piece::King).0, q as u64);
                assert(board.piece_board(a, Piece::King).has(q) == (s[q] == Some(ColoredPiece { piece: Piece::King, color: a })));
                assert(board.occupied.has(q) == s[q] is Some);
                assert(board.occupied.has(q));
                assert(q != from);
                if m.spec_is_castling() {
                    lemma_corner_not_between(p, d, to);
                }
                assert(t[q] is Some);
                assert(after.occupied.has(q));
            }
        }
        lemma_attack_kept(cp.piece, o, p, occ1, occ2, to);
        assert(attacks_from_square(board, o, occ1, p, to));
        assert(king_danger(board, to));
    }
}

} // verus!
