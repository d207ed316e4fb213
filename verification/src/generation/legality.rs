use vstd::prelude::*;
use vstd::std_specs::bits::u64_trailing_zeros;

use crate::bits::{bit_set, bits_where, lemma_bit_and, lemma_bit_or, popcount, lemma_bit_single, lemma_bit_xor, lemma_bit_zero, lemma_bits_ext, lemma_bits_where_has, single};
use crate::board::attacks::{attack_target, between_bits, check_fold, king_square_of, pin_check_for, pin_term, slider_hits, their_squares};
use crate::board::color::Color;
use crate::board::piece::{ColoredPiece, Piece};
use crate::board::Board;
use crate::board::attacks::{attacked_by, attacks_from_square};
use crate::board::moves::{after_capture, after_move, landing_piece, place_piece};
use crate::lookup::king_target;
use crate::lookup::utils::Direction;

use super::mov::Move;
use super::listing::{en_passants_listed, king_steps_listed, listed, lists_castling, lists_en_passant, lists_promotion, lists_step, moves_listed, piece_moves_listed, step_of};
use super::new_gen::{en_passant_allowed, en_passant_clear, ends_check, generated_ok, king_danger, promotion_choice, pseudo_target, step_ok};
use super::safety::{fills_less, lemma_attack_kept, lemma_king_move_safe};
use crate::lookup::{between_target, bishop_target, direction_of, dist, knight_target, lemma_rf_index, on_ray, pawn_attack_target, rook_target, slide_target};

verus! {

/// A square `k` on the ray from `p` in direction `d` sees `p` back along the opposite ray, at
/// the same distance, and the squares before `p` on that ray are those before `k` on the first.
pub proof fn lemma_ray_back(p: int, d: Direction, k: int)
    requires
        on_ray(p, d, k),
    ensures
        direction_of(p, k) == d,
        on_ray(k, d.spec_opposite(), p),
        dist(k, p) == dist(p, k),
        forall|m: int| #[trigger] on_ray(k, d.spec_opposite(), m) && dist(k, m) < dist(k, p) ==> on_ray(p, d, m) && dist(p, m) < dist(p, k),
{
    lemma_rf_index(p);
    lemma_rf_index(k);
    assert forall|m: int| #[trigger] on_ray(k, d.spec_opposite(), m) && dist(k, m) < dist(k, p) implies on_ray(p, d, m) && dist(p, m) < dist(p, k) by {
        lemma_rf_index(m);
    }
}

/// A slide from `p` that reaches `k` is a slide from `k` that reaches `p`.
pub proof fn lemma_slide_back(p: int, d: Direction, occ: u64, k: int)
    requires
        slide_target(p, d, occ, k),
    ensures
        slide_target(k, d.spec_opposite(), occ, p),
{
    lemma_ray_back(p, d, k);
}

/// The checking sliders gathered below `n` are the sliders there with nothing between them and
/// the king.
pub proof fn lemma_check_fold_bit(sliders: u64, k: int, occ: u64, n: nat, q: int)
    requires
        n <= 64,
        0 <= q < 64,
    ensures
        bit_set(check_fold(sliders, k, occ, n), q as u64) == (q < n && bit_set(sliders, q as u64) && pin_term(q, k, occ) == 0),
    decreases n,
{
    if n == 0 {
        lemma_bit_zero(q as u64);
    } else {
        let p = n - 1;
        lemma_check_fold_bit(sliders, k, occ, (n - 1) as nat, q);
        let t: u64 = if bit_set(sliders, p as u64) && pin_term(p, k, occ) == 0 {
            single(p as u64)
        } else {
            0
        };
        lemma_bit_xor(check_fold(sliders, k, occ, (n - 1) as nat), t, q as u64);
        lemma_bit_single(p as u64, q as u64);
        lemma_bit_zero(q as u64);
    }
}

/// Nothing stands between a slider and the square its slide reaches.
pub proof fn lemma_open_line(p: int, d: Direction, occ: u64, k: int)
    requires
        slide_target(p, d, occ, k),
    ensures
        pin_term(p, k, occ) == 0,
{
    lemma_ray_back(p, d, k);
    let x = pin_term(p, k, occ);
    assert forall|i: u64| i < 64 implies bit_set(x, i) == bit_set(0, i) by {
        lemma_bit_and(between_bits(p, k), occ, i);
        lemma_bits_where_has(|m: int| between_target(p, k, m), i);
        lemma_bit_zero(i);
        if between_target(p, k, i as int) {
            assert(on_ray(p, d, i as int));
        }
    }
    lemma_bits_ext(x, 0);
}

/// No square lies both on a diagonal and on a rank or file through another.
pub proof fn lemma_lines_apart(k: int, occ: u64, p: int)
    ensures
        !(bishop_target(k, occ, p) && rook_target(k, occ, p)),
{
    if 0 <= k < 64 && 0 <= p < 64 {
        lemma_rf_index(k);
        lemma_rf_index(p);
    }
}

/// A slider on `p` that reaches `k` is seen from `k` along the same kind of line, with
/// nothing between them.
pub proof fn lemma_slider_sees(p: int, occ: u64, k: int)
    requires
        bishop_target(p, occ, k) || rook_target(p, occ, k),
    ensures
        pin_term(p, k, occ) == 0,
        bishop_target(p, occ, k) ==> bishop_target(k, occ, p),
        rook_target(p, occ, k) ==> rook_target(k, occ, p),
{
    if slide_target(p, Direction::North, occ, k) {
        lemma_slide_back(p, Direction::North, occ, k);
        lemma_open_line(p, Direction::North, occ, k);
    }
    if slide_target(p, Direction::East, occ, k) {
        lemma_slide_back(p, Direction::East, occ, k);
        lemma_open_line(p, Direction::East, occ, k);
    }
    if slide_target(p, Direction::South, occ, k) {
        lemma_slide_back(p, Direction::South, occ, k);
        lemma_open_line(p, Direction::South, occ, k);
    }
    if slide_target(p, Direction::West, occ, k) {
        lemma_slide_back(p, Direction::West, occ, k);
        lemma_open_line(p, Direction::West, occ, k);
    }
    if slide_target(p, Direction::NorthEast, occ, k) {
        lemma_slide_back(p, Direction::NorthEast, occ, k);
        lemma_open_line(p, Direction::NorthEast, occ, k);
    }
    if slide_target(p, Direction::SouthEast, occ, k) {
        lemma_slide_back(p, Direction::SouthEast, occ, k);
        lemma_open_line(p, Direction::SouthEast, occ, k);
    }
    if slide_target(p, Direction::SouthWest, occ, k) {
        lemma_slide_back(p, Direction::SouthWest, occ, k);
        lemma_open_line(p, Direction::SouthWest, occ, k);
    }
    if slide_target(p, Direction::NorthWest, occ, k) {
        lemma_slide_back(p, Direction::NorthWest, occ, k);
        lemma_open_line(p, Direction::NorthWest, occ, k);
    }
}

/// A slider that the king on `k` sees along an open line has nothing between it and the king.
pub proof fn lemma_seen_slider_open(k: int, occ: u64, p: int)
    requires
        bishop_target(k, occ, p) || rook_target(k, occ, p),
    ensures
        pin_term(p, k, occ) == 0,
        bishop_target(k, occ, p) ==> bishop_target(p, occ, k),
        rook_target(k, occ, p) ==> rook_target(p, occ, k),
{
    if slide_target(k, Direction::North, occ, p) {
        lemma_slide_back(k, Direction::North, occ, p);
    }
    if slide_target(k, Direction::East, occ, p) {
        lemma_slide_back(k, Direction::East, occ, p);
    }
    if slide_target(k, Direction::South, occ, p) {
        lemma_slide_back(k, Direction::South, occ, p);
    }
    if slide_target(k, Direction::West, occ, p) {
        lemma_slide_back(k, Direction::West, occ, p);
    }
    if slide_target(k, Direction::NorthEast, occ, p) {
        lemma_slide_back(k, Direction::NorthEast, occ, p);
    }
    if slide_target(k, Direction::SouthEast, occ, p) {
        lemma_slide_back(k, Direction::SouthEast, occ, p);
    }
    if slide_target(k, Direction::SouthWest, occ, p) {
        lemma_slide_back(k, Direction::SouthWest, occ, p);
    }
    if slide_target(k, Direction::NorthWest, occ, p) {
        lemma_slide_back(k, Direction::NorthWest, occ, p);
    }
    lemma_slider_sees(p, occ, k);
}

/// A slide along `d` that meets no square of `occ` meets none of a word with fewer squares.
proof fn lemma_slide_fewer(k: int, d: Direction, occ: u64, fewer: u64, p: int)
    requires
        slide_target(k, d, occ, p),
        forall|i: u64| i < 64 && #[trigger] bit_set(fewer, i) ==> bit_set(occ, i),
    ensures
        slide_target(k, d, fewer, p),
{
    assert forall|m: int| #[trigger] on_ray(k, d, m) && dist(k, m) < dist(k, p) implies !bit_set(fewer, m as u64) by {
        assert(!bit_set(occ, m as u64));
    }
}

/// A slide along `d` from `k` to `p` with nothing of `occ` between `p` and `k` meets no square
/// of `occ` on the way.
proof fn lemma_slide_open(k: int, d: Direction, fewer: u64, occ: u64, p: int)
    requires
        slide_target(k, d, fewer, p),
        pin_term(p, k, occ) == 0,
    ensures
        slide_target(k, d, occ, p),
{
    lemma_ray_back(k, d, p);
    lemma_ray_back(p, d.spec_opposite(), k);
    crate::lookup::utils::lemma_opposite_involutive(d);
    assert forall|m: int| #[trigger] on_ray(k, d, m) && dist(k, m) < dist(k, p) implies !bit_set(occ, m as u64) by {
        assert(on_ray(k, d.spec_opposite().spec_opposite(), m));
        assert(on_ray(p, d.spec_opposite(), m) && dist(p, m) < dist(p, k));
        assert(between_target(p, k, m));
        lemma_bit_and(between_bits(p, k), occ, m as u64);
        lemma_bits_where_has(|x: int| between_target(p, k, x), m as u64);
        lemma_bit_zero(m as u64);
    }
}

/// What a bishop or rook on `k` reaches with `occ` occupied it still reaches with fewer
/// squares occupied.
proof fn lemma_target_fewer(k: int, occ: u64, fewer: u64, p: int)
    requires
        forall|i: u64| i < 64 && #[trigger] bit_set(fewer, i) ==> bit_set(occ, i),
    ensures
        bishop_target(k, occ, p) ==> bishop_target(k, fewer, p),
        rook_target(k, occ, p) ==> rook_target(k, fewer, p),
{
    if slide_target(k, Direction::North, occ, p) {
        lemma_slide_fewer(k, Direction::North, occ, fewer, p);
    }
    if slide_target(k, Direction::East, occ, p) {
        lemma_slide_fewer(k, Direction::East, occ, fewer, p);
    }
    if slide_target(k, Direction::South, occ, p) {
        lemma_slide_fewer(k, Direction::South, occ, fewer, p);
    }
    if slide_target(k, Direction::West, occ, p) {
        lemma_slide_fewer(k, Direction::West, occ, fewer, p);
    }
    if slide_target(k, Direction::NorthEast, occ, p) {
        lemma_slide_fewer(k, Direction::NorthEast, occ, fewer, p);
    }
    if slide_target(k, Direction::SouthEast, occ, p) {
        lemma_slide_fewer(k, Direction::SouthEast, occ, fewer, p);
    }
    if slide_target(k, Direction::SouthWest, occ, p) {
        lemma_slide_fewer(k, Direction::SouthWest, occ, fewer, p);
    }
    if slide_target(k, Direction::NorthWest, occ, p) {
        lemma_slide_fewer(k, Direction::NorthWest, occ, fewer, p);
    }
}

/// What a bishop or rook on `k` reaches with fewer squares occupied it reaches with `occ`
/// occupied when nothing of `occ` stands between.
proof fn lemma_target_open(k: int, fewer: u64, occ: u64, p: int)
    requires
        pin_term(p, k, occ) == 0,
    ensures
        bishop_target(k, fewer, p) ==> bishop_target(k, occ, p),
        rook_target(k, fewer, p) ==> rook_target(k, occ, p),
{
    if slide_target(k, Direction::North, fewer, p) {
        lemma_slide_open(k, Direction::North, fewer, occ, p);
    }
    if slide_target(k, Direction::East, fewer, p) {
        lemma_slide_open(k, Direction::East, fewer, occ, p);
    }
    if slide_target(k, Direction::South, fewer, p) {
        lemma_slide_open(k, Direction::South, fewer, occ, p);
    }
    if slide_target(k, Direction::West, fewer, p) {
        lemma_slide_open(k, Direction::West, fewer, occ, p);
    }
    if slide_target(k, Direction::NorthEast, fewer, p) {
        lemma_slide_open(k, Direction::NorthEast, fewer, occ, p);
    }
    if slide_target(k, Direction::SouthEast, fewer, p) {
        lemma_slide_open(k, Direction::SouthEast, fewer, occ, p);
    }
    if slide_target(k, Direction::SouthWest, fewer, p) {
        lemma_slide_open(k, Direction::SouthWest, fewer, occ, p);
    }
    if slide_target(k, Direction::NorthWest, fewer, p) {
        lemma_slide_open(k, Direction::NorthWest, fewer, occ, p);
    }
}

/// The squares of the side not to move are among the occupied squares.
proof fn lemma_theirs_occupied(board: Board)
    requires
        board.consistent(),
    ensures
        forall|i: u64| i < 64 && #[trigger] bit_set(their_squares(board, board.gamestate.active), i) ==> bit_set(
            board.occupied.0,
            i,
        ),
{
    reveal(crate::board::squares_agree);
    assert forall|i: u64| i < 64 && #[trigger] bit_set(their_squares(board, board.gamestate.active), i) implies bit_set(
        board.occupied.0,
        i,
    ) by {
        if board.gamestate.active == Color::White {
            assert(board.black.has(i as int));
        } else {
            assert(board.white.has(i as int));
        }
        assert(board.occupied.has(i as int));
    }
}

/// A piece of the other side, not its king, that attacks the king of the side to move is one
/// of the checkers the pin and check search finds.
pub proof fn lemma_attacker_checks(board: Board, p: int)
    requires
        board.consistent(),
        popcount(board.piece_board(board.gamestate.active, Piece::King).0) == 1,
        0 <= p < 64,
        board.pieces@[p] matches Some(cp) && cp.color == board.gamestate.active.opposite() && cp.piece != Piece::King
            && attack_target(cp.piece, cp.color, p, board.occupied.0, king_square_of(board, board.gamestate.active)),
    ensures
        bit_set(pin_check_for(board, board.gamestate.active).checkers.0, p as u64),
{
    let a = board.gamestate.active;
    let o = a.opposite();
    let k = king_square_of(board, a);
    let occ = board.occupied.0;
    let cp = board.pieces@[p]->Some_0;
    let q = p as u64;
    crate::bits::lemma_popcount_one(board.piece_board(a, Piece::King).0);
    crate::board::lemma_consistent_real(board);
    let knights = board.piece_board(o, Piece::Knight).0;
    let pawns = board.piece_board(o, Piece::Pawn).0;
    let bishops = board.piece_board(o, Piece::Bishop).0;
    let rooks = board.piece_board(o, Piece::Rook).0;
    let queens = board.piece_board(o, Piece::Queen).0;
    crate::board::lemma_piece_board_has(board, o, Piece::Knight, p);
    crate::board::lemma_piece_board_has(board, o, Piece::Pawn, p);
    crate::board::lemma_piece_board_has(board, o, Piece::Bishop, p);
    crate::board::lemma_piece_board_has(board, o, Piece::Rook, p);
    crate::board::lemma_piece_board_has(board, o, Piece::Queen, p);
    let sliders = slider_hits(board, a, k);
    let kw = bits_where(|j: int| knight_target(k, j));
    let pw = bits_where(|j: int| pawn_attack_target(a, k, j));
    let theirs = their_squares(board, a);
    let bw = bits_where(|j: int| bishop_target(k, theirs, j));
    let rw = bits_where(|j: int| rook_target(k, theirs, j));
    lemma_theirs_occupied(board);
    let cf = check_fold(sliders, k, occ, 64);
    lemma_bit_xor(cf ^ (kw & knights), pw & pawns, q);
    lemma_bit_xor(cf, kw & knights, q);
    lemma_bit_and(kw, knights, q);
    lemma_bit_and(pw, pawns, q);
    lemma_bits_where_has(|j: int| knight_target(k, j), q);
    lemma_bits_where_has(|j: int| pawn_attack_target(a, k, j), q);
    lemma_bits_where_has(|j: int| bishop_target(k, theirs, j), q);
    lemma_bits_where_has(|j: int| rook_target(k, theirs, j), q);
    lemma_bit_xor(bw & (bishops | queens), rw & (rooks | queens), q);
    lemma_bit_and(bw, bishops | queens, q);
    lemma_bit_and(rw, rooks | queens, q);
    lemma_bit_or(bishops, queens, q);
    lemma_bit_or(rooks, queens, q);
    lemma_check_fold_bit(sliders, k, occ, 64, p);
    if cp.piece == Piece::Bishop || cp.piece == Piece::Rook || cp.piece == Piece::Queen {
        lemma_slider_sees(p, occ, k);
        lemma_target_fewer(k, occ, theirs, p);
        lemma_lines_apart(k, theirs, p);
    }
}

/// A square strictly between a slider and the square it reaches is empty.
pub proof fn lemma_blocked_between(p: int, occ: u64, k: int, j: int)
    requires
        bishop_target(p, occ, k) || rook_target(p, occ, k),
        between_target(p, k, j),
    ensures
        !bit_set(occ, j as u64),
{
    if slide_target(p, Direction::North, occ, k) {
        lemma_ray_back(p, Direction::North, k);
    }
    if slide_target(p, Direction::East, occ, k) {
        lemma_ray_back(p, Direction::East, k);
    }
    if slide_target(p, Direction::South, occ, k) {
        lemma_ray_back(p, Direction::South, k);
    }
    if slide_target(p, Direction::West, occ, k) {
        lemma_ray_back(p, Direction::West, k);
    }
    if slide_target(p, Direction::NorthEast, occ, k) {
        lemma_ray_back(p, Direction::NorthEast, k);
    }
    if slide_target(p, Direction::SouthEast, occ, k) {
        lemma_ray_back(p, Direction::SouthEast, k);
    }
    if slide_target(p, Direction::SouthWest, occ, k) {
        lemma_ray_back(p, Direction::SouthWest, k);
    }
    if slide_target(p, Direction::NorthWest, occ, k) {
        lemma_ray_back(p, Direction::NorthWest, k);
    }
}

/// Nothing lies between a knight or a pawn and a square it attacks.
pub proof fn lemma_nothing_between_short(p: int, color: Color, k: int, j: int)
    requires
        knight_target(p, k) || pawn_attack_target(color, p, k),
    ensures
        !between_target(p, k, j),
{
    lemma_rf_index(p);
    lemma_rf_index(k);
    if 0 <= j < 64 {
        lemma_rf_index(j);
    }
}

/// The king of the other side does not stand next to the king of the side to move.
pub open spec fn kings_apart(board: Board) -> bool {
    let a = board.gamestate.active;
    forall|p: int|
        #![trigger board.pieces@[p]]
        0 <= p < 64 && board.pieces@[p] == Some(ColoredPiece { piece: Piece::King, color: a.opposite() }) ==> !king_target(
            p,
            king_square_of(board, a),
        )
}

/// What a move other than a king's, castling or en passant does to the squares: `from` is left
/// empty, the piece (or what it promotes to) stands on `to`, and every other square keeps its
/// piece.
proof fn lemma_step_squares(s: Seq<Option<ColoredPiece>>, m: Move, a: Color, t: Seq<Option<ColoredPiece>>)
    requires
        s.len() == 64,
        crate::board::moves::move_fits(s, m, a),
        !m.spec_is_castling(),
        !m.spec_is_en_passant(),
        m.spec_is_capture() ==> m.spec_capture_square() == m.spec_to(),
        t == after_move(s, m, a),
    ensures
        t.len() == 64,
        t[m.spec_from() as int] is None,
        t[m.spec_to() as int] == Some(ColoredPiece { piece: landing_piece(m), color: a }),
        forall|q: int| 0 <= q < 64 && q != m.spec_from() && q != m.spec_to() ==> #[trigger] t[q] == s[q],
{
    crate::generation::mov::lemma_masks(m.0);
    let s1 = after_capture(s, m);
    assert(t == place_piece(s1, m, a));
    assert forall|q: int| 0 <= q < 64 && q != m.spec_to() implies #[trigger] s1[q] == s[q] by {}
}

/// A slider of the other side that the king of the side to move sees through its own pieces
/// stands on a ray from the king with no piece of its side before it.
proof fn lemma_slider_ray(board: Board, p: int) -> (d: Direction)
    requires
        board.consistent(),
        0 <= p < 64,
        bit_set(
            slider_hits(board, board.gamestate.active, king_square_of(board, board.gamestate.active)),
            p as u64,
        ),
    ensures
        slide_target(king_square_of(board, board.gamestate.active), d, their_squares(board, board.gamestate.active), p),
        bit_set(their_squares(board, board.gamestate.active), p as u64),
{
    reveal(crate::board::squares_agree);
    let a = board.gamestate.active;
    let o = a.opposite();
    let k = king_square_of(board, a);
    let theirs = their_squares(board, a);
    let q = p as u64;
    let bishops = board.piece_board(o, Piece::Bishop).0;
    let rooks = board.piece_board(o, Piece::Rook).0;
    let queens = board.piece_board(o, Piece::Queen).0;
    crate::board::lemma_consistent_real(board);
    crate::board::lemma_piece_board_has(board, o, Piece::Bishop, p);
    crate::board::lemma_piece_board_has(board, o, Piece::Rook, p);
    crate::board::lemma_piece_board_has(board, o, Piece::Queen, p);
    let bw = bits_where(|j: int| bishop_target(k, theirs, j));
    let rw = bits_where(|j: int| rook_target(k, theirs, j));
    lemma_bits_where_has(|j: int| bishop_target(k, theirs, j), q);
    lemma_bits_where_has(|j: int| rook_target(k, theirs, j), q);
    lemma_bit_xor(bw & (bishops | queens), rw & (rooks | queens), q);
    lemma_bit_and(bw, bishops | queens, q);
    lemma_bit_and(rw, rooks | queens, q);
    lemma_bit_or(bishops, queens, q);
    lemma_bit_or(rooks, queens, q);
    if o == Color::White {
        assert(board.white.has(p));
    } else {
        assert(board.black.has(p));
    }
    if slide_target(k, Direction::North, theirs, p) {
        Direction::North
    } else if slide_target(k, Direction::East, theirs, p) {
        Direction::East
    } else if slide_target(k, Direction::South, theirs, p) {
        Direction::South
    } else if slide_target(k, Direction::West, theirs, p) {
        Direction::West
    } else if slide_target(k, Direction::NorthEast, theirs, p) {
        Direction::NorthEast
    } else if slide_target(k, Direction::SouthEast, theirs, p) {
        Direction::SouthEast
    } else if slide_target(k, Direction::SouthWest, theirs, p) {
        Direction::SouthWest
    } else {
        Direction::NorthWest
    }
}

/// Two sliders the king sees through its own pieces cannot have the same single piece between
/// them and the king.
proof fn lemma_pinner_unique(board: Board, q: int, p1: int, p2: int)
    requires
        board.consistent(),
        0 <= q < 64,
        0 <= p1 < 64,
        0 <= p2 < 64,
        bit_set(slider_hits(board, board.gamestate.active, king_square_of(board, board.gamestate.active)), p1 as u64),
        bit_set(slider_hits(board, board.gamestate.active, king_square_of(board, board.gamestate.active)), p2 as u64),
        pin_term(p1, king_square_of(board, board.gamestate.active), board.occupied.0) == single(q as u64),
        pin_term(p2, king_square_of(board, board.gamestate.active), board.occupied.0) == single(q as u64),
    ensures
        p1 == p2,
{
    let a = board.gamestate.active;
    let k = king_square_of(board, a);
    let occ = board.occupied.0;
    let theirs = their_squares(board, a);
    let d1 = lemma_slider_ray(board, p1);
    let d2 = lemma_slider_ray(board, p2);
    lemma_bit_single(q as u64, q as u64);
    lemma_bit_and(between_bits(p1, k), occ, q as u64);
    lemma_bits_where_has(|x: int| between_target(p1, k, x), q as u64);
    lemma_bit_and(between_bits(p2, k), occ, q as u64);
    lemma_bits_where_has(|x: int| between_target(p2, k, x), q as u64);
    lemma_ray_back(k, d1, p1);
    lemma_ray_back(p1, d1.spec_opposite(), k);
    lemma_ray_back(k, d2, p2);
    lemma_ray_back(p2, d2.spec_opposite(), k);
    assert(on_ray(k, d1, q));
    assert(on_ray(k, d2, q));
    lemma_ray_back(k, d1, q);
    lemma_ray_back(k, d2, q);
    assert(d1 == d2);
    if dist(k, p1) < dist(k, p2) {
        assert(!bit_set(theirs, p1 as u64));
    } else if dist(k, p2) < dist(k, p1) {
        assert(!bit_set(theirs, p2 as u64));
    } else {
        lemma_same_ray_dist(k, d1, p1, p2);
    }
}

/// The square `q` is gathered as pinned below `n` exactly when the one slider `p` whose single
/// piece between it and the king is `q` lies below `n`.
proof fn lemma_pin_fold_one(sliders: u64, k: int, occ: u64, n: nat, q: int, p: int)
    requires
        n <= 64,
        0 <= q < 64,
        0 <= p < 64,
        bit_set(sliders, p as u64),
        pin_term(p, k, occ) == single(q as u64),
        forall|p2: int| 0 <= p2 < 64 && bit_set(sliders, p2 as u64) && #[trigger] pin_term(p2, k, occ) == single(q as u64) ==> p2 == p,
    ensures
        bit_set(crate::board::attacks::pin_fold(sliders, k, occ, n), q as u64) == (p < n),
    decreases n,
{
    if n == 0 {
        lemma_bit_zero(q as u64);
    } else {
        let p1 = n - 1;
        lemma_pin_fold_one(sliders, k, occ, (n - 1) as nat, q, p);
        let prev = crate::board::attacks::pin_fold(sliders, k, occ, (n - 1) as nat);
        let x = pin_term(p1, k, occ);
        let t: u64 = if bit_set(sliders, p1 as u64) && popcount(x) == 1 {
            x
        } else {
            0
        };
        lemma_bit_xor(prev, t, q as u64);
        lemma_bit_zero(q as u64);
        lemma_bit_single(q as u64, q as u64);
        crate::bits::lemma_popcount_single(q as u64);
        if bit_set(sliders, p1 as u64) && popcount(x) == 1 && bit_set(x, q as u64) {
            crate::bits::lemma_popcount_one(x);
            lemma_bit_single(u64_trailing_zeros(x) as u64, q as u64);
            assert(x == single(q as u64));
        }
    }
}

/// A slider that sees the king through its own pieces, with exactly one of them (on `q`)
/// between, has that piece found pinned.
proof fn lemma_pin_found(board: Board, q: int, p: int)
    requires
        board.consistent(),
        0 <= q < 64,
        0 <= p < 64,
        bit_set(slider_hits(board, board.gamestate.active, king_square_of(board, board.gamestate.active)), p as u64),
        pin_term(p, king_square_of(board, board.gamestate.active), board.occupied.0) == single(q as u64),
    ensures
        pin_check_for(board, board.gamestate.active).pinned.has(q),
{
    let a = board.gamestate.active;
    let k = king_square_of(board, a);
    let occ = board.occupied.0;
    let sliders = slider_hits(board, a, k);
    assert forall|p2: int| 0 <= p2 < 64 && bit_set(sliders, p2 as u64) && #[trigger] pin_term(p2, k, occ) == single(q as u64)
        implies p2 == p by {
        lemma_pinner_unique(board, q, p, p2);
    }
    lemma_pin_fold_one(sliders, k, occ, 64, q, p);
}

/// Bit `j` of a word moved eight squares up or down is the bit eight squares the other way.
proof fn lemma_shift_eight(x: u64, j: u64)
    requires
        j < 64,
    ensures
        8 <= j ==> (bit_set(x << 8u64, j) == bit_set(x, (j - 8) as u64)),
        j < 56 ==> (bit_set(x >> 8u64, j) == bit_set(x, (j + 8) as u64)),
{
    assert(8 <= j ==> ((((x << 8u64) >> j) & 1u64 == 1u64) == ((x >> ((j - 8) as u64)) & 1u64 == 1u64))) by (bit_vector)
        requires
            j < 64,
    ;
    assert(j < 56 ==> ((((x >> 8u64) >> j) & 1u64 == 1u64) == ((x >> ((j + 8) as u64)) & 1u64 == 1u64))) by (bit_vector)
        requires
            j < 64,
    ;
}

/// Three squares on a ray from `k`, in order of distance, lie in that order along the same
/// direction from the nearest one.
proof fn lemma_ray_order(k: int, d: Direction, x: int, y: int, z: int)
    requires
        on_ray(k, d, x),
        on_ray(k, d, y),
        on_ray(k, d, z),
        dist(k, x) < dist(k, y) < dist(k, z),
    ensures
        on_ray(x, d, y),
        on_ray(x, d, z),
        dist(x, y) < dist(x, z),
        dist(x, z) >= 2,
{
    lemma_rf_index(k);
    lemma_rf_index(x);
    lemma_rf_index(y);
    lemma_rf_index(z);
}

/// A piece of the side to move that a slider pins and that moves along the pin line away from
/// the king cannot get past the slider.
proof fn lemma_no_jump(board: Board, m: Move, p: int, d: Direction)
    requires
        board.consistent(),
        generated_ok(board, m),
        !m.spec_is_castling(),
        !m.spec_is_en_passant(),
        m.spec_piece() != Piece::King,
        on_ray(king_square_of(board, board.gamestate.active), d, m.spec_from() as int),
        on_ray(king_square_of(board, board.gamestate.active), d, p),
        on_ray(king_square_of(board, board.gamestate.active), d, m.spec_to() as int),
        dist(king_square_of(board, board.gamestate.active), m.spec_from() as int) < dist(
            king_square_of(board, board.gamestate.active),
            p,
        ),
        bit_set(board.occupied.0, p as u64),
    ensures
        dist(king_square_of(board, board.gamestate.active), m.spec_to() as int) <= dist(
            king_square_of(board, board.gamestate.active),
            p,
        ),
{
    reveal(crate::board::squares_agree);
    let a = board.gamestate.active;
    let k = king_square_of(board, a);
    let from = m.spec_from() as int;
    let to = m.spec_to() as int;
    let occ = board.occupied.0;
    crate::generation::mov::lemma_masks(m.0);
    if dist(k, to) > dist(k, p) {
        lemma_ray_order(k, d, from, p, to);
        let piece = m.spec_piece();
        if piece == Piece::Knight {
            lemma_knight_off_line(k, d, from, to);
        } else if piece == Piece::Pawn {
            lemma_rf_index(from);
            lemma_rf_index(to);
            lemma_rf_index(p);
            let b = occ ^ single(from as u64);
            lemma_bit_xor(occ, single(from as u64), p as u64);
            lemma_bit_single(from as u64, p as u64);
            lemma_shift_eight(b, to as u64);
            if a == Color::White {
                assert(p == to - 8);
            } else {
                assert(p == to + 8);
            }
        } else {
            lemma_ray_back(from, d, to);
            if slide_target(from, Direction::North, occ, to) {
                lemma_ray_back(from, Direction::North, to);
            }
            if slide_target(from, Direction::East, occ, to) {
                lemma_ray_back(from, Direction::East, to);
            }
            if slide_target(from, Direction::South, occ, to) {
                lemma_ray_back(from, Direction::South, to);
            }
            if slide_target(from, Direction::West, occ, to) {
                lemma_ray_back(from, Direction::West, to);
            }
            if slide_target(from, Direction::NorthEast, occ, to) {
                lemma_ray_back(from, Direction::NorthEast, to);
            }
            if slide_target(from, Direction::SouthEast, occ, to) {
                lemma_ray_back(from, Direction::SouthEast, to);
            }
            if slide_target(from, Direction::SouthWest, occ, to) {
                lemma_ray_back(from, Direction::SouthWest, to);
            }
            if slide_target(from, Direction::NorthWest, occ, to) {
                lemma_ray_back(from, Direction::NorthWest, to);
            }
            assert(slide_target(from, d, occ, to));
            assert(!bit_set(occ, p as u64));
        }
    }
}

/// A slider of the other side that attacks the king of the side to move after a move the
/// generator hands out, and that would attack it with the moving piece lifted off its square,
/// attacked it before the move: otherwise the moving piece was pinned by it, and a pinned
/// piece keeps to the line between the slider and the king.
proof fn lemma_attack_was_there(board: Board, m: Move, after: Board, p: int)
    requires
        board.consistent(),
        popcount(board.piece_board(board.gamestate.active, Piece::King).0) == 1,
        generated_ok(board, m),
        m.spec_piece() != Piece::King,
        !m.spec_is_en_passant(),
        !m.spec_is_castling(),
        after.made_from(board, m),
        0 <= p < 64,
        p != m.spec_from(),
        p != m.spec_to(),
        board.pieces@[p] matches Some(e) && e.color == board.gamestate.active.opposite() && (e.piece == Piece::Bishop
            || e.piece == Piece::Rook || e.piece == Piece::Queen),
        attack_target(
            board.pieces@[p]->Some_0.piece,
            board.gamestate.active.opposite(),
            p,
            after.occupied.0,
            king_square_of(board, board.gamestate.active),
        ),
        attack_target(
            board.pieces@[p]->Some_0.piece,
            board.gamestate.active.opposite(),
            p,
            board.occupied.0 ^ single(m.spec_from() as u64),
            king_square_of(board, board.gamestate.active),
        ),
    ensures
        attack_target(
            board.pieces@[p]->Some_0.piece,
            board.gamestate.active.opposite(),
            p,
            board.occupied.0,
            king_square_of(board, board.gamestate.active),
        ),
{
    reveal(crate::board::squares_agree);
    let a = board.gamestate.active;
    let o = a.opposite();
    let k = king_square_of(board, a);
    let from = m.spec_from() as int;
    let to = m.spec_to() as int;
    let occ1 = board.occupied.0;
    let occ2 = after.occupied.0;
    let before = occ1 ^ single(from as u64);
    let theirs = their_squares(board, a);
    let e = board.pieces@[p]->Some_0;
    let s = board.pieces@;
    let t = after.pieces@;
    crate::generation::mov::lemma_masks(m.0);
    crate::bits::lemma_popcount_one(board.piece_board(a, Piece::King).0);
    crate::board::lemma_consistent_real(board);
    lemma_step_squares(s, m, a, t);
    lemma_slider_sees(p, before, k);
    if pin_term(p, k, occ1) == 0 {
        lemma_target_open(k, before, occ1, p);
        lemma_seen_slider_open(k, occ1, p);
    } else {
        // Only the moving piece stands between the slider and the king.
        let x = pin_term(p, k, occ1);
        assert forall|i: u64| i < 64 && i != from as u64 implies !#[trigger] bit_set(x, i) by {
            lemma_bit_and(between_bits(p, k), occ1, i);
            lemma_bit_and(between_bits(p, k), before, i);
            lemma_bit_xor(occ1, single(from as u64), i);
            lemma_bit_single(from as u64, i);
            lemma_bit_zero(i);
        }
        if !bit_set(x, from as u64) {
            assert forall|i: u64| i < 64 implies bit_set(x, i) == bit_set(0, i) by {
                lemma_bit_zero(i);
            }
            lemma_bits_ext(x, 0);
        }
        assert forall|i: u64| i < 64 implies bit_set(x, i) == bit_set(single(from as u64), i) by {
            lemma_bit_single(from as u64, i);
        }
        lemma_bits_ext(x, single(from as u64));
        // The slider sees the king through the pieces of the side to move.
        lemma_theirs_occupied(board);
        assert forall|i: u64| i < 64 && #[trigger] bit_set(theirs, i) implies bit_set(before, i) by {
            lemma_bit_xor(occ1, single(from as u64), i);
            lemma_bit_single(from as u64, i);
            if i == from as u64 {
                if a == Color::White {
                    assert(board.black.has(from));
                } else {
                    assert(board.white.has(from));
                }
            }
        }
        lemma_target_fewer(k, before, theirs, p);
        let q = p as u64;
        let bishops = board.piece_board(o, Piece::Bishop).0;
        let rooks = board.piece_board(o, Piece::Rook).0;
        let queens = board.piece_board(o, Piece::Queen).0;
        crate::board::lemma_piece_board_has(board, o, Piece::Bishop, p);
        crate::board::lemma_piece_board_has(board, o, Piece::Rook, p);
        crate::board::lemma_piece_board_has(board, o, Piece::Queen, p);
        let bw = bits_where(|j: int| bishop_target(k, theirs, j));
        let rw = bits_where(|j: int| rook_target(k, theirs, j));
        lemma_bits_where_has(|j: int| bishop_target(k, theirs, j), q);
        lemma_bits_where_has(|j: int| rook_target(k, theirs, j), q);
        lemma_bit_xor(bw & (bishops | queens), rw & (rooks | queens), q);
        lemma_bit_and(bw, bishops | queens, q);
        lemma_bit_and(rw, rooks | queens, q);
        lemma_bit_or(bishops, queens, q);
        lemma_bit_or(rooks, queens, q);
        lemma_lines_apart(k, theirs, p);
        lemma_pin_found(board, from, p);
        // The pinned piece keeps to the line, so it still stands between the slider and the
        // king, or it went no further than the slider.
        let d = lemma_slider_ray(board, p);
        lemma_ray_back(k, d, p);
        lemma_ray_back(p, d.spec_opposite(), k);
        crate::lookup::utils::lemma_opposite_involutive(d);
        lemma_bit_single(from as u64, from as u64);
        lemma_bit_and(between_bits(p, k), occ1, from as u64);
        lemma_bits_where_has(|y: int| between_target(p, k, y), from as u64);
        assert(on_ray(k, d, from) && dist(k, from) < dist(k, p));
        lemma_ray_back(k, d, from);
        assert(step_ok(board, from, to));
        assert(on_ray(k, d, to));
        assert(board.occupied.has(p));
        lemma_no_jump(board, m, p, d);
        if dist(k, to) == dist(k, p) {
            lemma_same_ray_dist(k, d, to, p);
        } else {
            assert(on_ray(k, d.spec_opposite().spec_opposite(), to));
            assert(on_ray(p, d.spec_opposite(), to) && dist(p, to) < dist(p, k));
            assert(between_target(p, k, to));
            lemma_blocked_between(p, occ2, k, to);
            assert(after.occupied.has(to));
        }
    }
}

/// Law: a move the generator hands out for a piece other than the king, when the kings stand
/// apart, leaves that king unattacked once it is made (en passant aside).
pub proof fn lemma_step_leaves_king_safe(board: Board, m: Move, after: Board)
    requires
        board.consistent(),
        popcount(board.piece_board(board.gamestate.active, Piece::King).0) == 1,
        generated_ok(board, m),
        m.spec_piece() != Piece::King,
        !m.spec_is_en_passant(),
        kings_apart(board),
        after.made_from(board, m),
    ensures
        !attacked_by(
            after,
            board.gamestate.active.opposite(),
            after.occupied.0,
            king_square_of(board, board.gamestate.active),
        ),
{
    reveal(crate::board::squares_agree);
    let a = board.gamestate.active;
    let o = a.opposite();
    let k = king_square_of(board, a);
    let from = m.spec_from() as int;
    let to = m.spec_to() as int;
    let occ1 = board.occupied.0;
    let occ2 = after.occupied.0;
    let s = board.pieces@;
    let t = after.pieces@;
    crate::bits::lemma_popcount_one(board.piece_board(a, Piece::King).0);
    crate::board::lemma_piece_board_has(board, a, Piece::King, k);
    crate::generation::mov::lemma_masks(m.0);
    if m.spec_is_castling() {
        assert(s[from] == Some(ColoredPiece { piece: Piece::King, color: a }));
    }
    lemma_step_squares(s, m, a, t);
    if attacked_by(after, o, occ2, k) {
        let p = choose|p: int| 0 <= p < 64 && attacks_from_square(after, o, occ2, p, k);
        let e = t[p]->Some_0;
        assert(p != to && p != from);
        assert(t[p] == s[p]);
        if e.piece == Piece::King {
            assert(!king_target(p, k));
        }
        // Before the move, the attacker reached the king as well.
        if e.piece == Piece::Bishop || e.piece == Piece::Rook || e.piece == Piece::Queen {
            let before = occ1 ^ single(from as u64);
            assert(fills_less(p, k, before, occ2)) by {
                assert forall|d: Direction, j: int| on_ray(p, d, k) && #[trigger] on_ray(p, d, j) && dist(p, j) < dist(p, k) && bit_set(before, j as u64)
                    implies bit_set(occ2, j as u64) by {
                    lemma_bit_xor(occ1, single(from as u64), j as u64);
                    lemma_bit_single(from as u64, j as u64);
                    assert(board.occupied.has(j));
                    assert(after.occupied.has(j));
                }
            }
            lemma_attack_kept(e.piece, o, p, before, occ2, k);
            assert(s[from] matches Some(own) && own.color == a);
            lemma_attack_was_there(board, m, after, p);
        }
        assert(attack_target(e.piece, o, p, occ1, k));
        lemma_attacker_checks(board, p);
        let checkers = pin_check_for(board, a).checkers.0;
        assert(checkers != 0) by {
            if checkers == 0 {
                lemma_bit_zero(p as u64);
            }
        }
        assert(step_ok(board, from, to));
        assert(ends_check(board, to));
        crate::bits::lemma_popcount_one(checkers);
        lemma_bit_single(vstd::std_specs::bits::u64_trailing_zeros(checkers) as u64, p as u64);
        if e.piece == Piece::Knight || e.piece == Piece::Pawn {
            lemma_nothing_between_short(p, o, k, to);
        } else {
            assert(after.occupied.has(to));
            if between_target(p, k, to) {
                lemma_blocked_between(p, occ2, k, to);
            }
        }
    }
}

/// No knight of the other side attacks the king of the side to move, nor any pawn but the one
/// on `spared`.
pub open spec fn no_short_check(board: Board, spared: int) -> bool {
    let a = board.gamestate.active;
    let o = a.opposite();
    let k = king_square_of(board, a);
    forall|p: int|
        #![trigger board.pieces@[p]]
        0 <= p < 64 && p != spared && (board.pieces@[p] matches Some(e) && e.color == o) ==> {
            &&& !(board.pieces@[p]->Some_0.piece == Piece::Knight && knight_target(p, k))
            &&& !(board.pieces@[p]->Some_0.piece == Piece::Pawn && pawn_attack_target(o, p, k))
        }
}

/// What an en passant capture does to the squares: the taking pawn leaves `from`, the taken
/// pawn leaves its square, `to` is filled, every other square keeps its piece; the occupied
/// squares change on exactly those three.
proof fn lemma_en_passant_squares(board: Board, m: Move, after: Board)
    requires
        board.consistent(),
        crate::board::moves::move_fits(board.pieces@, m, board.gamestate.active),
        m.spec_is_en_passant(),
        board.pieces@[m.spec_to() as int] is None,
        after.made_from(board, m),
    ensures
        after.pieces@[m.spec_from() as int] is None,
        after.pieces@[m.spec_capture_square() as int] is None,
        after.pieces@[m.spec_to() as int] matches Some(x) && x.color == board.gamestate.active,
        m.spec_capture_square() != m.spec_from(),
        m.spec_capture_square() != m.spec_to(),
        forall|q: int|
            0 <= q < 64 && q != m.spec_from() && q != m.spec_to() && q != m.spec_capture_square() ==> #[trigger] after.pieces@[q]
                == board.pieces@[q],
        after.occupied.0 == ((board.occupied.0 ^ single(m.spec_from() as u64)) ^ single(m.spec_capture_square() as u64))
            ^ single(m.spec_to() as u64),
{
    reveal(crate::board::squares_agree);
    let a = board.gamestate.active;
    let from = m.spec_from() as int;
    let to = m.spec_to() as int;
    let c = m.spec_capture_square() as int;
    let occ1 = board.occupied.0;
    let occ2 = after.occupied.0;
    let s = board.pieces@;
    let t = after.pieces@;
    crate::generation::mov::lemma_masks(m.0);
    let s1 = after_capture(s, m);
    let s2 = s1.update(from, None).update(to, Some(ColoredPiece { piece: landing_piece(m), color: a }));
    assert(t == place_piece(s1, m, a));
    assert(!m.spec_is_castling());
    assert(t == s2);
    assert(c != from && c != to);
    let occ = ((occ1 ^ single(from as u64)) ^ single(c as u64)) ^ single(to as u64);
    assert(occ2 == occ) by {
        assert forall|i: u64| i < 64 implies bit_set(occ2, i) == bit_set(occ, i) by {
            lemma_bit_xor((occ1 ^ single(from as u64)) ^ single(c as u64), single(to as u64), i);
            lemma_bit_xor(occ1 ^ single(from as u64), single(c as u64), i);
            lemma_bit_xor(occ1, single(from as u64), i);
            lemma_bit_single(from as u64, i);
            lemma_bit_single(c as u64, i);
            lemma_bit_single(to as u64, i);
            assert(board.occupied.has(i as int) == s[i as int] is Some);
            assert(after.occupied.has(i as int) == t[i as int] is Some);
        }
        lemma_bits_ext(occ2, occ);
    }
}

/// Law: an en passant capture the generator hands out, when the kings stand apart and no
/// knight, nor any pawn but the one taken, attacks the king of the side to move, leaves that
/// king unattacked once it is made.
pub proof fn lemma_en_passant_leaves_king_safe(board: Board, m: Move, after: Board)
    requires
        board.consistent(),
        popcount(board.piece_board(board.gamestate.active, Piece::King).0) == 1,
        generated_ok(board, m),
        m.spec_is_en_passant(),
        kings_apart(board),
        no_short_check(board, m.spec_capture_square() as int),
        after.made_from(board, m),
    ensures
        !attacked_by(
            after,
            board.gamestate.active.opposite(),
            after.occupied.0,
            king_square_of(board, board.gamestate.active),
        ),
{
    reveal(crate::board::squares_agree);
    let a = board.gamestate.active;
    let o = a.opposite();
    let k = king_square_of(board, a);
    let from = m.spec_from() as int;
    let to = m.spec_to() as int;
    let c = m.spec_capture_square() as int;
    let occ1 = board.occupied.0;
    let occ2 = after.occupied.0;
    let s = board.pieces@;
    let t = after.pieces@;
    crate::generation::mov::lemma_masks(m.0);
    crate::bits::lemma_popcount_one(board.piece_board(a, Piece::King).0);
    crate::board::lemma_piece_board_has(board, a, Piece::King, k);
    lemma_en_passant_squares(board, m, after);
    let occ = ((occ1 ^ single(from as u64)) ^ single(c as u64)) ^ single(to as u64);
    if attacked_by(after, o, occ2, k) {
        let p = choose|p: int| 0 <= p < 64 && attacks_from_square(after, o, occ2, p, k);
        let e = t[p]->Some_0;
        assert(p != to && p != from && p != c);
        assert(t[p] == s[p]);
        if e.piece == Piece::King {
            assert(!king_target(p, k));
        } else if e.piece == Piece::Knight || e.piece == Piece::Pawn {
            assert(s[p] matches Some(x) && x.color == o);
        } else {
            lemma_slider_sees(p, occ, k);
            crate::board::lemma_piece_board_has(board, o, Piece::Bishop, p);
            crate::board::lemma_piece_board_has(board, o, Piece::Rook, p);
            crate::board::lemma_piece_board_has(board, o, Piece::Queen, p);
            assert(en_passant_clear(board, from, c, to));
            if bishop_target(k, occ, p) {
                assert(!(bishop_target(k, occ, p) && (board.piece_board(o, Piece::Bishop).has(p) || board.piece_board(o, Piece::Queen).has(p))));
            }
            if rook_target(k, occ, p) {
                assert(!(rook_target(k, occ, p) && (board.piece_board(o, Piece::Rook).has(p) || board.piece_board(o, Piece::Queen).has(p))));
            }
        }
    }
}

/// Law: every move the generator hands out is legal (the king of the side that made it is not
/// attacked afterwards) when the kings stand apart and, for an en passant capture, no knight
/// and no pawn but the one taken attacks the king.
pub proof fn lemma_generated_move_legal(board: Board, m: Move, after: Board)
    requires
        board.consistent(),
        popcount(board.piece_board(board.gamestate.active, Piece::King).0) == 1,
        generated_ok(board, m),
        kings_apart(board),
        m.spec_is_en_passant() ==> no_short_check(board, m.spec_capture_square() as int),
        after.made_from(board, m),
    ensures
        !attacked_by(
            after,
            board.gamestate.active.opposite(),
            after.occupied.0,
            if m.spec_piece() == Piece::King {
                m.spec_to() as int
            } else {
                king_square_of(board, board.gamestate.active)
            },
        ),
{
    if m.spec_piece() == Piece::King {
        lemma_king_move_safe(board, m, after);
    } else if m.spec_is_en_passant() {
        lemma_en_passant_leaves_king_safe(board, m, after);
    } else {
        lemma_step_leaves_king_safe(board, m, after);
    }
}

/// Each checker the pin and check search finds is a piece of the other side, not its king,
/// that attacks the king of the side to move.
pub proof fn lemma_checker_attacks(board: Board, c: int)
    requires
        board.consistent(),
        popcount(board.piece_board(board.gamestate.active, Piece::King).0) == 1,
        0 <= c < 64,
        bit_set(pin_check_for(board, board.gamestate.active).checkers.0, c as u64),
    ensures
        board.pieces@[c] matches Some(e) && e.color == board.gamestate.active.opposite() && e.piece != Piece::King
            && attack_target(e.piece, e.color, c, board.occupied.0, king_square_of(board, board.gamestate.active)),
{
    let a = board.gamestate.active;
    let o = a.opposite();
    let k = king_square_of(board, a);
    let occ = board.occupied.0;
    let q = c as u64;
    crate::bits::lemma_popcount_one(board.piece_board(a, Piece::King).0);
    crate::board::lemma_consistent_real(board);
    let knights = board.piece_board(o, Piece::Knight).0;
    let pawns = board.piece_board(o, Piece::Pawn).0;
    let bishops = board.piece_board(o, Piece::Bishop).0;
    let rooks = board.piece_board(o, Piece::Rook).0;
    let queens = board.piece_board(o, Piece::Queen).0;
    crate::board::lemma_piece_board_has(board, o, Piece::Knight, c);
    crate::board::lemma_piece_board_has(board, o, Piece::Pawn, c);
    crate::board::lemma_piece_board_has(board, o, Piece::Bishop, c);
    crate::board::lemma_piece_board_has(board, o, Piece::Rook, c);
    crate::board::lemma_piece_board_has(board, o, Piece::Queen, c);
    let sliders = slider_hits(board, a, k);
    let kw = bits_where(|j: int| knight_target(k, j));
    let pw = bits_where(|j: int| pawn_attack_target(a, k, j));
    let theirs = their_squares(board, a);
    let bw = bits_where(|j: int| bishop_target(k, theirs, j));
    let rw = bits_where(|j: int| rook_target(k, theirs, j));
    lemma_theirs_occupied(board);
    let cf = check_fold(sliders, k, occ, 64);
    lemma_bit_xor(cf ^ (kw & knights), pw & pawns, q);
    lemma_bit_xor(cf, kw & knights, q);
    lemma_bit_and(kw, knights, q);
    lemma_bit_and(pw, pawns, q);
    lemma_bits_where_has(|j: int| knight_target(k, j), q);
    lemma_bits_where_has(|j: int| pawn_attack_target(a, k, j), q);
    lemma_bits_where_has(|j: int| bishop_target(k, theirs, j), q);
    lemma_bits_where_has(|j: int| rook_target(k, theirs, j), q);
    lemma_bit_xor(bw & (bishops | queens), rw & (rooks | queens), q);
    lemma_bit_and(bw, bishops | queens, q);
    lemma_bit_and(rw, rooks | queens, q);
    lemma_bit_or(bishops, queens, q);
    lemma_bit_or(rooks, queens, q);
    lemma_check_fold_bit(sliders, k, occ, 64, c);
    lemma_lines_apart(k, theirs, c);
    if pin_term(c, k, occ) == 0 {
        lemma_target_open(k, theirs, occ, c);
    }
    if bishop_target(k, occ, c) || rook_target(k, occ, c) {
        lemma_seen_slider_open(k, occ, c);
    }
    lemma_rf_index(k);
    lemma_rf_index(c);
}

/// A word with some bit set but not exactly one has two different bits set.
proof fn lemma_two_bits(x: u64)
    requires
        x != 0,
        popcount(x) != 1,
    ensures
        exists|i: u64, j: u64| i < 64 && j < 64 && i != j && bit_set(x, i) && bit_set(x, j),
{
    crate::bits::lemma_lowest_bit(x);
    crate::bits::lemma_popcount_clear_lowest(x);
    let t0 = vstd::std_specs::bits::u64_trailing_zeros(x) as u64;
    let y = x & ((x - 1) as u64);
    if popcount(x) == 0 {
        crate::bits::lemma_popcount_zero(x);
    }
    assert(y != 0) by {
        if y == 0 {
            assert(popcount(0) == 0);
        }
    }
    crate::bits::lemma_lowest_bit(y);
    let t1 = vstd::std_specs::bits::u64_trailing_zeros(y) as u64;
    lemma_bit_xor(x, single(t0), t1);
    lemma_bit_single(t0, t1);
    assert(bit_set(x, t0) && bit_set(x, t1) && t0 != t1);
}

/// Two squares that both see `t` strictly between themselves and `k` lie on one ray from
/// `k`, the nearer between the farther and `k`.
proof fn lemma_segments_meet(c0: int, c1: int, k: int, t: int)
    requires
        c0 != c1,
        between_target(c0, k, t),
        between_target(c1, k, t),
        0 <= c0 < 64,
        0 <= c1 < 64,
        0 <= k < 64,
    ensures
        between_target(c0, k, c1) || between_target(c1, k, c0),
{
    lemma_rf_index(c0);
    lemma_rf_index(c1);
    lemma_rf_index(k);
    lemma_rf_index(t);
}

/// A checker that the move neither takes nor steps in front of still attacks the king after
/// the move.
proof fn lemma_check_persists(board: Board, m: Move, after: Board, c: int)
    requires
        board.consistent(),
        popcount(board.piece_board(board.gamestate.active, Piece::King).0) == 1,
        crate::board::moves::move_fits(board.pieces@, m, board.gamestate.active),
        m.spec_piece() != Piece::King,
        !m.spec_is_castling(),
        !m.spec_is_en_passant(),
        m.spec_is_capture() ==> m.spec_capture_square() == m.spec_to(),
        after.made_from(board, m),
        0 <= c < 64,
        bit_set(pin_check_for(board, board.gamestate.active).checkers.0, c as u64),
        c != m.spec_to(),
        !between_target(c, king_square_of(board, board.gamestate.active), m.spec_to() as int),
    ensures
        attacked_by(after, board.gamestate.active.opposite(), after.occupied.0, king_square_of(board, board.gamestate.active)),
{
    reveal(crate::board::squares_agree);
    let a = board.gamestate.active;
    let o = a.opposite();
    let k = king_square_of(board, a);
    let from = m.spec_from() as int;
    let to = m.spec_to() as int;
    let occ1 = board.occupied.0;
    let occ2 = after.occupied.0;
    let s = board.pieces@;
    let t = after.pieces@;
    lemma_checker_attacks(board, c);
    lemma_step_squares(s, m, a, t);
    let e = s[c]->Some_0;
    assert(c != from);
    assert(t[c] == s[c]);
    if e.piece == Piece::Bishop || e.piece == Piece::Rook || e.piece == Piece::Queen {
        assert(fills_less(c, k, occ2, occ1)) by {
            assert forall|d: Direction, j: int| on_ray(c, d, k) && #[trigger] on_ray(c, d, j) && dist(c, j) < dist(c, k) && bit_set(occ2, j as u64)
                implies bit_set(occ1, j as u64) by {
                lemma_ray_back(c, d, k);
                assert(between_target(c, k, j));
                assert(after.occupied.has(j));
                assert(board.occupied.has(j));
            }
        }
        lemma_attack_kept(e.piece, o, c, occ2, occ1, k);
    }
    assert(attacks_from_square(after, o, occ2, c, k));
}

/// A move of a piece other than the king that leaves its king unattacked ends any check: there
/// is a single checker, and the move takes it or steps between it and the king.
proof fn lemma_legal_step_ends_check(board: Board, m: Move, after: Board)
    requires
        board.consistent(),
        popcount(board.piece_board(board.gamestate.active, Piece::King).0) == 1,
        crate::board::moves::move_fits(board.pieces@, m, board.gamestate.active),
        m.spec_piece() != Piece::King,
        !m.spec_is_castling(),
        !m.spec_is_en_passant(),
        m.spec_is_capture() ==> m.spec_capture_square() == m.spec_to(),
        after.made_from(board, m),
        !attacked_by(after, board.gamestate.active.opposite(), after.occupied.0, king_square_of(board, board.gamestate.active)),
    ensures
        ends_check(board, m.spec_to() as int),
{
    reveal(crate::board::squares_agree);
    let a = board.gamestate.active;
    let k = king_square_of(board, a);
    let to = m.spec_to() as int;
    let checkers = pin_check_for(board, a).checkers.0;
    crate::bits::lemma_popcount_one(board.piece_board(a, Piece::King).0);
    crate::generation::mov::lemma_masks(m.0);
    // Every checker is taken or blocked.
    assert forall|i: u64| i < 64 && bit_set(checkers, i) implies i == to || between_target(i as int, k, to) by {
        if !(i == to || between_target(i as int, k, to)) {
            lemma_check_persists(board, m, after, i as int);
        }
    }
    if checkers != 0 {
        crate::bits::lemma_lowest_bit(checkers);
        if popcount(checkers) != 1 {
            lemma_two_bits(checkers);
            let (i, j) = choose|i: u64, j: u64| i < 64 && j < 64 && i != j && bit_set(checkers, i) && bit_set(checkers, j);
            lemma_checker_attacks(board, i as int);
            lemma_checker_attacks(board, j as int);
            let ei = board.pieces@[i as int]->Some_0;
            let ej = board.pieces@[j as int]->Some_0;
            assert(board.occupied.has(i as int));
            assert(board.occupied.has(j as int));
            if between_target(i as int, k, to) && between_target(j as int, k, to) {
                lemma_segments_meet(i as int, j as int, k, to);
            }
            if between_target(i as int, k, j as int) {
                if ei.piece == Piece::Knight || ei.piece == Piece::Pawn {
                    lemma_nothing_between_short(i as int, ei.color, k, j as int);
                } else {
                    lemma_blocked_between(i as int, board.occupied.0, k, j as int);
                }
            }
            if between_target(j as int, k, i as int) {
                if ej.piece == Piece::Knight || ej.piece == Piece::Pawn {
                    lemma_nothing_between_short(j as int, ej.color, k, i as int);
                } else {
                    lemma_blocked_between(j as int, board.occupied.0, k, i as int);
                }
            }
        }
    }
}

/// A square gathered as pinned below `n` stands alone between some slider below `n` and the
/// king.
proof fn lemma_pin_fold_bit(sliders: u64, k: int, occ: u64, n: nat, q: int)
    requires
        n <= 64,
        0 <= q < 64,
        bit_set(crate::board::attacks::pin_fold(sliders, k, occ, n), q as u64),
    ensures
        exists|p: int|
            0 <= p < n && bit_set(sliders, p as u64) && popcount(#[trigger] pin_term(p, k, occ)) == 1 && bit_set(
                pin_term(p, k, occ),
                q as u64,
            ),
    decreases n,
{
    if n == 0 {
        lemma_bit_zero(q as u64);
    } else {
        let p = n - 1;
        let prev = crate::board::attacks::pin_fold(sliders, k, occ, (n - 1) as nat);
        let t: u64 = if bit_set(sliders, p as u64) && popcount(pin_term(p, k, occ)) == 1 {
            pin_term(p, k, occ)
        } else {
            0
        };
        lemma_bit_xor(prev, t, q as u64);
        lemma_bit_zero(q as u64);
        if bit_set(prev, q as u64) {
            lemma_pin_fold_bit(sliders, k, occ, (n - 1) as nat, q);
        } else {
            assert(bit_set(sliders, p as u64) && popcount(pin_term(p, k, occ)) == 1 && bit_set(pin_term(p, k, occ), q as u64));
        }
    }
}

/// The piece on `from` stands alone, on the line from the king of the side to move, between
/// the king and the square `p` further out on that line: no other square of the line before
/// `p` is occupied.
pub open spec fn pin_line(board: Board, from: int, p: int) -> bool {
    let k = king_square_of(board, board.gamestate.active);
    let d = direction_of(k, from);
    &&& on_ray(k, d, from)
    &&& on_ray(k, d, p)
    &&& dist(k, from) < dist(k, p)
    &&& forall|j: int| #[trigger] on_ray(k, d, j) && dist(k, j) < dist(k, p) && j != from ==> !bit_set(board.occupied.0, j as u64)
}

/// A piece of the side to move standing alone between the king and a slider of the other
/// side that sees the king along `d` through it stays on that line when it moves, or the
/// slider attacks the king afterwards.
proof fn lemma_pin_holds(board: Board, m: Move, after: Board, p: int, d: Direction)
    requires
        board.consistent(),
        popcount(board.piece_board(board.gamestate.active, Piece::King).0) == 1,
        crate::board::moves::move_fits(board.pieces@, m, board.gamestate.active),
        !m.spec_is_castling(),
        !m.spec_is_en_passant(),
        m.spec_is_capture() ==> m.spec_capture_square() == m.spec_to(),
        after.made_from(board, m),
        !attacked_by(after, board.gamestate.active.opposite(), after.occupied.0, king_square_of(board, board.gamestate.active)),
        slide_target(king_square_of(board, board.gamestate.active), d, their_squares(board, board.gamestate.active), p),
        pin_term(p, king_square_of(board, board.gamestate.active), board.occupied.0) == single(m.spec_from() as u64),
        board.pieces@[p] matches Some(e) && e.color == board.gamestate.active.opposite(),
        forall|o2: u64| #[trigger] slide_target(p, d.spec_opposite(), o2, king_square_of(board, board.gamestate.active))
            ==> attack_target(board.pieces@[p]->Some_0.piece, board.gamestate.active.opposite(), p, o2, king_square_of(
            board,
            board.gamestate.active,
        )),
    ensures
        direction_of(king_square_of(board, board.gamestate.active), m.spec_from() as int) == d,
        on_ray(king_square_of(board, board.gamestate.active), d, m.spec_to() as int),
        pin_line(board, m.spec_from() as int, p),
{
    reveal(crate::board::squares_agree);
    let a = board.gamestate.active;
    let o = a.opposite();
    let k = king_square_of(board, a);
    let occ = board.occupied.0;
    let from = m.spec_from() as int;
    let to = m.spec_to() as int;
    let s = board.pieces@;
    let t = after.pieces@;
    crate::generation::mov::lemma_masks(m.0);
    lemma_step_squares(s, m, a, t);
    lemma_ray_back(k, d, p);
    lemma_ray_back(p, d.spec_opposite(), k);
    crate::lookup::utils::lemma_opposite_involutive(d);
    // The moving piece stands between the slider and the king.
    lemma_bit_single(from as u64, from as u64);
    lemma_bit_and(between_bits(p, k), occ, from as u64);
    lemma_bits_where_has(|x: int| between_target(p, k, x), from as u64);
    assert(between_target(p, k, from));
    assert(on_ray(k, d, from) && dist(k, from) < dist(k, p));
    lemma_ray_back(k, d, from);
    assert forall|j: int| #[trigger] on_ray(k, d, j) && dist(k, j) < dist(k, p) && j != from implies !bit_set(occ, j as u64) by {
        assert(on_ray(k, d.spec_opposite().spec_opposite(), j));
        assert(on_ray(p, d.spec_opposite(), j) && dist(p, j) < dist(p, k));
        assert(between_target(p, k, j));
        lemma_bit_and(between_bits(p, k), occ, j as u64);
        lemma_bits_where_has(|x: int| between_target(p, k, x), j as u64);
        lemma_bit_single(from as u64, j as u64);
    }
    if !on_ray(k, d, to) {
        let occ2 = after.occupied.0;
        assert forall|j: int| #[trigger] on_ray(k, d, j) && dist(k, j) < dist(k, p) implies !bit_set(occ2, j as u64) by {
            assert(on_ray(k, d.spec_opposite().spec_opposite(), j));
            assert(on_ray(p, d.spec_opposite(), j) && dist(p, j) < dist(p, k));
            assert(between_target(p, k, j));
            lemma_bit_and(between_bits(p, k), occ, j as u64);
            lemma_bits_where_has(|x: int| between_target(p, k, x), j as u64);
            lemma_bit_single(from as u64, j as u64);
            if j != from {
                assert(!bit_set(occ, j as u64));
                assert(!board.occupied.has(j));
                assert(t[j] == s[j]);
            }
            assert(!after.occupied.has(j));
        }
        assert(slide_target(k, d, occ2, p));
        lemma_slide_back(k, d, occ2, p);
        assert(p != from);
        assert(p != to);
        assert(t[p] == s[p]);
        assert(attacks_from_square(after, o, occ2, p, k));
        assert(attacked_by(after, o, occ2, k));
    }
}

/// A piece the pin search finds pinned moves, when its move leaves the king unattacked,
/// along the line from the king through it.
proof fn lemma_pinned_step_on_line(board: Board, m: Move, after: Board)
    requires
        board.consistent(),
        popcount(board.piece_board(board.gamestate.active, Piece::King).0) == 1,
        crate::board::moves::move_fits(board.pieces@, m, board.gamestate.active),
        !m.spec_is_castling(),
        !m.spec_is_en_passant(),
        m.spec_is_capture() ==> m.spec_capture_square() == m.spec_to(),
        after.made_from(board, m),
        !attacked_by(after, board.gamestate.active.opposite(), after.occupied.0, king_square_of(board, board.gamestate.active)),
        pin_check_for(board, board.gamestate.active).pinned.has(m.spec_from() as int),
    ensures
        on_ray(
            king_square_of(board, board.gamestate.active),
            direction_of(king_square_of(board, board.gamestate.active), m.spec_from() as int),
            m.spec_to() as int,
        ),
        exists|p: int| #[trigger] pin_line(board, m.spec_from() as int, p),
{
    let a = board.gamestate.active;
    let o = a.opposite();
    let k = king_square_of(board, a);
    let occ = board.occupied.0;
    let theirs = their_squares(board, a);
    let from = m.spec_from() as int;
    crate::generation::mov::lemma_masks(m.0);
    crate::bits::lemma_popcount_one(board.piece_board(a, Piece::King).0);
    crate::board::lemma_consistent_real(board);
    let sliders = slider_hits(board, a, k);
    lemma_pin_fold_bit(sliders, k, occ, 64, from);
    let p = choose|p: int|
        0 <= p < 64 && bit_set(sliders, p as u64) && popcount(#[trigger] pin_term(p, k, occ)) == 1 && bit_set(
            pin_term(p, k, occ),
            from as u64,
        );
    let x = pin_term(p, k, occ);
    crate::bits::lemma_popcount_one(x);
    lemma_bit_single(u64_trailing_zeros(x) as u64, from as u64);
    assert(x == single(from as u64));
    let q = p as u64;
    let bishops = board.piece_board(o, Piece::Bishop).0;
    let rooks = board.piece_board(o, Piece::Rook).0;
    let queens = board.piece_board(o, Piece::Queen).0;
    crate::board::lemma_piece_board_has(board, o, Piece::Bishop, p);
    crate::board::lemma_piece_board_has(board, o, Piece::Rook, p);
    crate::board::lemma_piece_board_has(board, o, Piece::Queen, p);
    let bw = bits_where(|j: int| bishop_target(k, theirs, j));
    let rw = bits_where(|j: int| rook_target(k, theirs, j));
    lemma_bits_where_has(|j: int| bishop_target(k, theirs, j), q);
    lemma_bits_where_has(|j: int| rook_target(k, theirs, j), q);
    lemma_bit_xor(bw & (bishops | queens), rw & (rooks | queens), q);
    lemma_bit_and(bw, bishops | queens, q);
    lemma_bit_and(rw, rooks | queens, q);
    lemma_bit_or(bishops, queens, q);
    lemma_bit_or(rooks, queens, q);
    lemma_lines_apart(k, theirs, p);
    if slide_target(k, Direction::North, theirs, p) {
        lemma_pin_holds(board, m, after, p, Direction::North);
    } else if slide_target(k, Direction::East, theirs, p) {
        lemma_pin_holds(board, m, after, p, Direction::East);
    } else if slide_target(k, Direction::South, theirs, p) {
        lemma_pin_holds(board, m, after, p, Direction::South);
    } else if slide_target(k, Direction::West, theirs, p) {
        lemma_pin_holds(board, m, after, p, Direction::West);
    } else if slide_target(k, Direction::NorthEast, theirs, p) {
        lemma_pin_holds(board, m, after, p, Direction::NorthEast);
    } else if slide_target(k, Direction::SouthEast, theirs, p) {
        lemma_pin_holds(board, m, after, p, Direction::SouthEast);
    } else if slide_target(k, Direction::SouthWest, theirs, p) {
        lemma_pin_holds(board, m, after, p, Direction::SouthWest);
    } else {
        lemma_pin_holds(board, m, after, p, Direction::NorthWest);
    }
}

/// Two squares on the same ray from `k` at the same distance are the same square.
proof fn lemma_same_ray_dist(k: int, d: Direction, x: int, y: int)
    requires
        on_ray(k, d, x),
        on_ray(k, d, y),
        dist(k, x) == dist(k, y),
    ensures
        x == y,
{
    lemma_rf_index(k);
    lemma_rf_index(x);
    lemma_rf_index(y);
}

/// A knight's jump never stays on a line through `k`: from a square on a ray from `k` it lands
/// neither on that ray nor on `k`.
proof fn lemma_knight_off_line(k: int, d: Direction, f: int, t: int)
    requires
        on_ray(k, d, f),
        on_ray(k, d, t) || t == k,
    ensures
        !knight_target(f, t),
{
    lemma_rf_index(k);
    lemma_rf_index(f);
    lemma_rf_index(t);
}

/// A square strictly between `c` and `k` that lies on a ray from `k` has `c` further out on the
/// same ray.
proof fn lemma_between_on_ray(c: int, k: int, d: Direction, t: int)
    requires
        between_target(c, k, t),
        on_ray(k, d, t),
    ensures
        on_ray(k, d, c),
        dist(k, t) < dist(k, c),
{
    lemma_rf_index(k);
    lemma_rf_index(c);
    lemma_rf_index(t);
}

/// A pawn attacks only squares one step away.
proof fn lemma_pawn_attack_near(color: Color, c: int, k: int)
    requires
        pawn_attack_target(color, c, k),
    ensures
        dist(k, c) == 1,
{
    lemma_rf_index(k);
    lemma_rf_index(c);
}

/// A piece the pin search finds pinned has no move that leaves the king unattacked while the
/// king is in check.
proof fn lemma_pinned_not_in_check(board: Board, m: Move, after: Board)
    requires
        board.consistent(),
        popcount(board.piece_board(board.gamestate.active, Piece::King).0) == 1,
        crate::board::moves::move_fits(board.pieces@, m, board.gamestate.active),
        m.spec_piece() != Piece::King,
        !m.spec_is_castling(),
        !m.spec_is_en_passant(),
        m.spec_is_capture() ==> m.spec_capture_square() == m.spec_to(),
        after.made_from(board, m),
        !attacked_by(after, board.gamestate.active.opposite(), after.occupied.0, king_square_of(board, board.gamestate.active)),
        pin_check_for(board, board.gamestate.active).pinned.has(m.spec_from() as int),
    ensures
        pin_check_for(board, board.gamestate.active).checkers.0 == 0,
{
    reveal(crate::board::squares_agree);
    let a = board.gamestate.active;
    let o = a.opposite();
    let k = king_square_of(board, a);
    let occ = board.occupied.0;
    let from = m.spec_from() as int;
    let to = m.spec_to() as int;
    let checkers = pin_check_for(board, a).checkers.0;
    crate::generation::mov::lemma_masks(m.0);
    crate::bits::lemma_popcount_one(board.piece_board(a, Piece::King).0);
    lemma_pinned_step_on_line(board, m, after);
    let p = choose|p: int| #[trigger] pin_line(board, from, p);
    let d = direction_of(k, from);
    if checkers != 0 {
        lemma_legal_step_ends_check(board, m, after);
        let c = u64_trailing_zeros(checkers) as int;
        crate::bits::lemma_popcount_one(checkers);
        lemma_bit_single(c as u64, c as u64);
        lemma_checker_attacks(board, c);
        let e = board.pieces@[c]->Some_0;
        if to != c {
            lemma_between_on_ray(c, k, d, to);
        }
        assert(on_ray(k, d, c));
        assert(c != from);
        assert(board.occupied.has(c));
        if dist(k, c) < dist(k, p) {
            assert(!bit_set(occ, c as u64));
        } else {
            lemma_ray_back(k, d, c);
            lemma_ray_back(c, d.spec_opposite(), k);
            crate::lookup::utils::lemma_opposite_involutive(d);
            assert(on_ray(k, d.spec_opposite().spec_opposite(), from));
            assert(on_ray(c, d.spec_opposite(), from) && dist(c, from) < dist(c, k));
            assert(between_target(c, k, from));
            if e.piece == Piece::Knight {
                lemma_knight_off_line(k, d, c, k);
            } else if e.piece == Piece::Pawn {
                lemma_pawn_attack_near(o, c, k);
            } else {
                lemma_slider_sees(c, occ, k);
                lemma_bit_and(between_bits(c, k), occ, from as u64);
                lemma_bits_where_has(|x: int| between_target(c, k, x), from as u64);
                lemma_bit_zero(from as u64);
                assert(board.occupied.has(from));
            }
        }
    }
}

/// Law: every move of a piece other than the king (castling and en passant aside) that its
/// piece can make, that takes no piece of its own side, and after which the king of the side
/// that made it is not attacked, is among the moves the generator lists.
pub proof fn lemma_legal_step_listed(board: Board, m: Move, after: Board, moves: Seq<Move>)
    requires
        board.consistent(),
        popcount(board.piece_board(board.gamestate.active, Piece::King).0) == 1,
        crate::board::moves::move_fits(board.pieces@, m, board.gamestate.active),
        m.spec_piece() != Piece::King,
        !m.spec_is_castling(),
        !m.spec_is_en_passant(),
        m.spec_is_capture() ==> m.spec_capture_square() == m.spec_to(),
        pseudo_target(board, m.spec_piece(), m.spec_from() as int, board.occupied.0, m.spec_to() as int),
        after.made_from(board, m),
        !attacked_by(after, board.gamestate.active.opposite(), after.occupied.0, king_square_of(board, board.gamestate.active)),
        moves_listed(board, moves),
    ensures
        listed(moves, m.spec_piece(), m.spec_from() as int, m.spec_to() as int),
{
    reveal(crate::board::squares_agree);
    let a = board.gamestate.active;
    let from = m.spec_from() as int;
    let to = m.spec_to() as int;
    crate::generation::mov::lemma_masks(m.0);
    lemma_legal_step_ends_check(board, m, after);
    if pin_check_for(board, a).pinned.has(from) {
        lemma_pinned_step_on_line(board, m, after);
        lemma_pinned_not_in_check(board, m, after);
        let p = choose|p: int| #[trigger] pin_line(board, from, p);
        if m.spec_piece() == Piece::Knight {
            lemma_knight_off_line(king_square_of(board, a), direction_of(king_square_of(board, a), from), from, to);
        }
    }
    assert(!(board.pieces@[to] matches Some(cp) && cp.color == a));
    assert(piece_moves_listed(board, moves, m.spec_piece()));
}

/// Law: every step of the king (castling aside) to a square it reaches that holds no piece of
/// its side, after which the king is not attacked, is among the moves the generator lists.
pub proof fn lemma_legal_king_step_listed(board: Board, m: Move, after: Board, moves: Seq<Move>)
    requires
        board.consistent(),
        popcount(board.piece_board(board.gamestate.active, Piece::King).0) == 1,
        crate::board::moves::move_fits(board.pieces@, m, board.gamestate.active),
        m.spec_piece() == Piece::King,
        !m.spec_is_castling(),
        !m.spec_is_en_passant(),
        !m.spec_is_promotion(),
        m.spec_is_capture() ==> m.spec_capture_square() == m.spec_to(),
        king_target(m.spec_from() as int, m.spec_to() as int),
        after.made_from(board, m),
        !attacked_by(after, board.gamestate.active.opposite(), after.occupied.0, m.spec_to() as int),
        moves_listed(board, moves),
    ensures
        lists_step(moves, Piece::King, m.spec_from() as int, m.spec_to() as int),
{
    reveal(crate::board::squares_agree);
    let a = board.gamestate.active;
    let o = a.opposite();
    let from = m.spec_from() as int;
    let to = m.spec_to() as int;
    let kb = board.piece_board(a, Piece::King).0;
    let occ1 = board.occupied.0 ^ kb;
    let occ2 = after.occupied.0;
    let s = board.pieces@;
    let t = after.pieces@;
    crate::generation::mov::lemma_masks(m.0);
    crate::bits::lemma_popcount_one(kb);
    crate::board::lemma_piece_board_has(board, a, Piece::King, from);
    let k = king_square_of(board, a);
    lemma_bit_single(k as u64, from as u64);
    assert(k == from);
    lemma_step_squares(s, m, a, t);
    if king_danger(board, to) {
        let p = choose|p: int| 0 <= p < 64 && attacks_from_square(board, o, occ1, p, to);
        let e = s[p]->Some_0;
        lemma_rf_index(p);
        lemma_rf_index(to);
        assert(p != to);
        assert(p != from);
        assert(t[p] == s[p]);
        if e.piece == Piece::Bishop || e.piece == Piece::Rook || e.piece == Piece::Queen {
            assert(fills_less(p, to, occ2, occ1)) by {
                assert forall|d: Direction, j: int| on_ray(p, d, to) && #[trigger] on_ray(p, d, j) && dist(p, j) < dist(p, to) && bit_set(occ2, j as u64)
                    implies bit_set(occ1, j as u64) by {
                    lemma_bit_xor(board.occupied.0, kb, j as u64);
                    lemma_bit_single(k as u64, j as u64);
                    assert(after.occupied.has(j));
                    assert(board.occupied.has(j));
                }
            }
            lemma_attack_kept(e.piece, o, p, occ2, occ1, to);
        }
        assert(attacks_from_square(after, o, occ2, p, to));
    }
    assert(!(s[to] matches Some(cp) && cp.color == a));
    assert(king_steps_listed(board, moves));
}

/// Law: every en passant capture that the last double step allows, made against at most one
/// checker, after which the king of the side that made it is not attacked, is among the moves
/// the generator lists.
pub proof fn lemma_legal_en_passant_listed(board: Board, m: Move, after: Board, moves: Seq<Move>)
    requires
        board.consistent(),
        popcount(board.piece_board(board.gamestate.active, Piece::King).0) == 1,
        crate::board::moves::move_fits(board.pieces@, m, board.gamestate.active),
        m.spec_is_en_passant(),
        m.spec_piece() == Piece::Pawn,
        m.spec_captured() == Piece::Pawn,
        en_passant_allowed(board, m),
        popcount(pin_check_for(board, board.gamestate.active).checkers.0) <= 1,
        after.made_from(board, m),
        !attacked_by(after, board.gamestate.active.opposite(), after.occupied.0, king_square_of(board, board.gamestate.active)),
        moves_listed(board, moves),
    ensures
        lists_en_passant(moves, m.spec_from() as int, m.spec_to() as int),
{
    reveal(crate::board::squares_agree);
    let a = board.gamestate.active;
    let o = a.opposite();
    let k = king_square_of(board, a);
    let from = m.spec_from() as int;
    let to = m.spec_to() as int;
    let c = m.spec_capture_square() as int;
    let s = board.pieces@;
    let t = after.pieces@;
    crate::generation::mov::lemma_masks(m.0);
    crate::bits::lemma_popcount_one(board.piece_board(a, Piece::King).0);
    crate::board::lemma_piece_board_has(board, a, Piece::King, k);
    lemma_en_passant_squares(board, m, after);
    let occ = after.occupied.0;
    assert forall|p: int|
        #![trigger bishop_target(k, occ, p)]
        #![trigger rook_target(k, occ, p)]
        0 <= p < 64 implies {
            &&& !(bishop_target(k, occ, p) && (board.piece_board(o, Piece::Bishop).has(p) || board.piece_board(o, Piece::Queen).has(p)))
            &&& !(rook_target(k, occ, p) && (board.piece_board(o, Piece::Rook).has(p) || board.piece_board(o, Piece::Queen).has(p)))
        } by {
        crate::board::lemma_piece_board_has(board, o, Piece::Bishop, p);
        crate::board::lemma_piece_board_has(board, o, Piece::Rook, p);
        crate::board::lemma_piece_board_has(board, o, Piece::Queen, p);
        if (bishop_target(k, occ, p) && (board.piece_board(o, Piece::Bishop).has(p) || board.piece_board(o, Piece::Queen).has(p)))
            || (rook_target(k, occ, p) && (board.piece_board(o, Piece::Rook).has(p) || board.piece_board(o, Piece::Queen).has(p))) {
            lemma_seen_slider_open(k, occ, p);
            assert(p != from && p != to && p != c);
            assert(t[p] == s[p]);
            assert(attacks_from_square(after, o, occ, p, k));
        }
    }
    assert(en_passant_clear(board, from, c, to));
    assert(en_passants_listed(board, moves));
}

/// Law: a pawn step onto the last rank is handed out as exactly the four promotions. Every
/// listed move that takes a pawn from `from` to `to` on the first or last rank (en passant
/// aside) promotes it to a queen, rook, bishop or knight, and the step is listed once for each
/// of those four pieces.
pub proof fn lemma_promotion_choices(board: Board, moves: Seq<Move>, k: int)
    requires
        forall|i: int| 0 <= i < moves.len() ==> generated_ok(board, #[trigger] moves[i]),
        moves_listed(board, moves),
        0 <= k < moves.len(),
        moves[k].spec_piece() == Piece::Pawn,
        !moves[k].spec_is_en_passant(),
        !moves[k].spec_is_castling(),
        moves[k].spec_to() / 8 == 0 || moves[k].spec_to() / 8 == 7,
    ensures
        forall|i: int|
            0 <= i < moves.len() && #[trigger] step_of(moves[i], Piece::Pawn, moves[k].spec_from() as int, moves[k].spec_to() as int)
                && !moves[i].spec_is_en_passant() ==> moves[i].spec_is_promotion() && promotion_choice(moves[i].spec_promoted()),
        lists_promotion(moves, moves[k].spec_from() as int, moves[k].spec_to() as int, Piece::Queen),
        lists_promotion(moves, moves[k].spec_from() as int, moves[k].spec_to() as int, Piece::Rook),
        lists_promotion(moves, moves[k].spec_from() as int, moves[k].spec_to() as int, Piece::Bishop),
        lists_promotion(moves, moves[k].spec_from() as int, moves[k].spec_to() as int, Piece::Knight),
{
    let m = moves[k];
    let a = board.gamestate.active;
    let from = m.spec_from() as int;
    let to = m.spec_to() as int;
    assert(generated_ok(board, m));
    assert(board.pieces@[from] == Some(ColoredPiece { piece: Piece::Pawn, color: a }));
    assert(pseudo_target(board, Piece::Pawn, from, board.occupied.0, to));
    assert(step_ok(board, from, to));
    assert(!(board.pieces@[to] matches Some(cp) && cp.color == a)) by {
        if m.spec_is_capture() {
            assert(m.spec_capture_square() == m.spec_to());
        } else {
            assert(after_capture(board.pieces@, m) == board.pieces@);
        }
    }
    assert(listed(moves, Piece::Pawn, from, to));
}

/// The squares between the king's first square and its castling target or rook corner.
proof fn lemma_castling_between(k: int)
    ensures
        between_target(4, 0, k) <==> (k == 1 || k == 2 || k == 3),
        between_target(4, 2, k) <==> k == 3,
        between_target(4, 7, k) <==> (k == 5 || k == 6),
        between_target(4, 6, k) <==> k == 5,
        between_target(60, 56, k) <==> (k == 57 || k == 58 || k == 59),
        between_target(60, 58, k) <==> k == 59,
        between_target(60, 63, k) <==> (k == 61 || k == 62),
        between_target(60, 62, k) <==> k == 61,
{
    if 0 <= k < 64 {
        lemma_rf_index(k);
    }
}

/// The castling of the king of the side to move from `from` over `pass` to `to`, with the rook
/// in `corner` and the squares `empty` between them, is open: the king and the rook stand on
/// their squares, the squares between them are empty, the king is not in check and neither
/// the square it passes nor the one it reaches is attacked.
pub open spec fn castling_clear(board: Board, from: int, pass: int, to: int, corner: int, empty: Set<int>) -> bool {
    let a = board.gamestate.active;
    &&& board.pieces@[from] == Some(ColoredPiece { piece: Piece::King, color: a })
    &&& board.pieces@[corner] == Some(ColoredPiece { piece: Piece::Rook, color: a })
    &&& forall|k: int| #[trigger] empty.contains(k) ==> board.pieces@[k] is None
    &&& pin_check_for(board, a).checkers.0 == 0
    &&& !king_danger(board, pass)
    &&& !king_danger(board, to)
}

/// Law: the castlings listed for `board` are exactly those the rules allow. White castles short
/// (e1 to g1) when it is to move, has the right, and the king on e1 and rook on h1 have f1 and
/// g1 empty between them, with no check and neither f1 nor g1 attacked; long (e1 to c1) with
/// the rook on a1, b1, c1 and d1 empty, and neither d1 nor c1 attacked; Black likewise on the
/// eighth rank.
pub proof fn lemma_castling_rules(board: Board, moves: Seq<Move>)
    requires
        forall|i: int| 0 <= i < moves.len() ==> generated_ok(board, #[trigger] moves[i]),
        moves_listed(board, moves),
    ensures
        ({
            let g = board.gamestate;
            &&& lists_castling(moves, 4, 6) <==> g.active == Color::White && g.white_kingside && castling_clear(
                board,
                4,
                5,
                6,
                7,
                set![5int, 6int],
            )
            &&& lists_castling(moves, 4, 2) <==> g.active == Color::White && g.white_queenside && castling_clear(
                board,
                4,
                3,
                2,
                0,
                set![1int, 2int, 3int],
            )
            &&& lists_castling(moves, 60, 62) <==> g.active == Color::Black && g.black_kingside && castling_clear(
                board,
                60,
                61,
                62,
                63,
                set![61int, 62int],
            )
            &&& lists_castling(moves, 60, 58) <==> g.active == Color::Black && g.black_queenside && castling_clear(
                board,
                60,
                59,
                58,
                56,
                set![57int, 58int, 59int],
            )
        }),
{
    assert forall|k: int| #![trigger between_target(4, 0, k)] #![trigger between_target(4, 7, k)]
        #![trigger between_target(60, 56, k)] #![trigger between_target(60, 63, k)]
        #![trigger between_target(4, 2, k)] #![trigger between_target(4, 6, k)]
        #![trigger between_target(60, 58, k)] #![trigger between_target(60, 62, k)]
        true implies {
            &&& between_target(4, 0, k) <==> set![1int, 2int, 3int].contains(k)
            &&& between_target(4, 2, k) <==> k == 3
            &&& between_target(4, 7, k) <==> set![5int, 6int].contains(k)
            &&& between_target(4, 6, k) <==> k == 5
            &&& between_target(60, 56, k) <==> set![57int, 58int, 59int].contains(k)
            &&& between_target(60, 58, k) <==> k == 59
            &&& between_target(60, 63, k) <==> set![61int, 62int].contains(k)
            &&& between_target(60, 62, k) <==> k == 61
        } by {
        lemma_castling_between(k);
    }
    lemma_one_castling(board, moves, 4, 5, 6, 7, set![5int, 6int]);
    lemma_one_castling(board, moves, 4, 3, 2, 0, set![1int, 2int, 3int]);
    lemma_one_castling(board, moves, 60, 61, 62, 63, set![61int, 62int]);
    lemma_one_castling(board, moves, 60, 59, 58, 56, set![57int, 58int, 59int]);
}

/// One castling, from `from` over `pass` to `to` with the rook in `corner` and the squares
/// `empty` between king and rook, is listed exactly when the side to move has the right and
/// the way is clear.
proof fn lemma_one_castling(board: Board, moves: Seq<Move>, from: int, pass: int, to: int, corner: int, empty: Set<int>)
    requires
        forall|i: int| 0 <= i < moves.len() ==> generated_ok(board, #[trigger] moves[i]),
        moves_listed(board, moves),
        (from == 4 && to == 6 && corner == 7) || (from == 4 && to == 2 && corner == 0) || (from == 60 && to == 62
            && corner == 63) || (from == 60 && to == 58 && corner == 56),
        forall|k: int| #[trigger] between_target(from, corner, k) <==> empty.contains(k),
        forall|k: int| #[trigger] between_target(from, to, k) <==> k == pass,
    ensures
        lists_castling(moves, from, to) <==> crate::generation::new_gen::castling_right(board, to) && castling_clear(
            board,
            from,
            pass,
            to,
            corner,
            empty,
        ),
{
    lemma_castling_listed_sound(board, moves, from, to);
    assert(crate::board::moves::rook_from(to) == corner);
    if lists_castling(moves, from, to) {
        assert(between_target(from, to, pass));
        assert forall|k: int| #[trigger] empty.contains(k) implies board.pieces@[k] is None by {
            assert(between_target(from, corner, k));
        }
    }
    if crate::generation::new_gen::castling_right(board, to) && castling_clear(board, from, pass, to, corner, empty) {
        assert forall|k: int| #[trigger] between_target(from, corner, k) implies board.pieces@[k] is None by {
            assert(empty.contains(k));
        }
        assert(crate::generation::new_gen::castling_open(board, from, to, corner));
    }
}

/// A listed castling from `from` to `to` is allowed for the side to move and passes only over
/// squares out of danger.
proof fn lemma_castling_listed_sound(board: Board, moves: Seq<Move>, from: int, to: int)
    requires
        forall|i: int| 0 <= i < moves.len() ==> generated_ok(board, #[trigger] moves[i]),
    ensures
        lists_castling(moves, from, to) ==> crate::generation::new_gen::castling_allowed(board, from, to) && forall|k: int|
            #[trigger] between_target(from, to, k) ==> !king_danger(board, k),
{
    if lists_castling(moves, from, to) {
        let i = choose|i: int| 0 <= i < moves.len() && #[trigger] moves[i].spec_is_castling() && moves[i].spec_piece()
            == Piece::King && moves[i].spec_from() == from && moves[i].spec_to() == to;
        assert(generated_ok(board, moves[i]));
    }
}

} // verus!
