use vstd::prelude::*;

use crate::bitboard::square::Square;
use crate::bitboard::Bitboard;
use crate::bits::{lemma_xor_chain, lemma_xor_drift};

use core::ops::Not;

use super::color::Color;
use super::piece::{ColoredPiece, Piece};
use crate::bitboard::constants::{A1, A8, C1, D1, D8, F1, F8, G1, G8, H1, H8};
use crate::bits::popcount;
use crate::generation::mov::Move;
use crate::generation::parse::parsed_move;

use super::attacks::pin_check_for;
use super::{bb_index, ep_hash, full_hash, pieces_hash, rights_hash, state_hash, toggle_ok, toggle_seq, Board, EnPassant, GameState};

verus! {

/// Position of a castling right in the hasher's castling keys: White kingside, White
/// queenside, Black kingside, Black queenside.
pub open spec fn castle_index(color: Color, short: bool) -> int {
    match (color, short) {
        (Color::White, true) => 0,
        (Color::White, false) => 1,
        (Color::Black, true) => 2,
        (Color::Black, false) => 3,
    }
}


/// Whether a king moving to `to` castles: to c1, g1, c8 or g8.
pub open spec fn castle_target(to: int) -> bool {
    to == 2 || to == 6 || to == 58 || to == 62
}

/// Square the castling rook leaves when the king moves to `to`.
pub open spec fn rook_from(to: int) -> int {
    if to == 6 {
        7
    } else if to == 2 {
        0
    } else if to == 62 {
        63
    } else {
        56
    }
}

/// Square the castling rook goes to when the king moves to `to`.
pub open spec fn rook_to(to: int) -> int {
    if to == 6 {
        5
    } else if to == 2 {
        3
    } else if to == 62 {
        61
    } else {
        59
    }
}

/// The piece standing on the to-square after the move: the promoted piece or the mover.
pub open spec fn landing_piece(m: Move) -> Piece {
    if m.spec_is_promotion() {
        m.spec_promoted()
    } else {
        m.spec_piece()
    }
}

/// The squares after the captured piece (if any) is taken off.
pub open spec fn after_capture(s: Seq<Option<ColoredPiece>>, m: Move) -> Seq<Option<ColoredPiece>> {
    if m.spec_is_capture() {
        s.update(m.spec_capture_square() as int, None)
    } else {
        s
    }
}

/// The squares after the moving piece goes from its square to the target (promoted if the
/// move promotes) and, when castling, the rook jumps over the king.
pub open spec fn place_piece(s: Seq<Option<ColoredPiece>>, m: Move, color: Color) -> Seq<Option<ColoredPiece>> {
    let s2 = s.update(m.spec_from() as int, None).update(
        m.spec_to() as int,
        Some(ColoredPiece { piece: landing_piece(m), color }),
    );
    if m.spec_is_castling() {
        s2.update(rook_from(m.spec_to() as int), None).update(
            rook_to(m.spec_to() as int),
            Some(ColoredPiece { piece: Piece::Rook, color }),
        )
    } else {
        s2
    }
}

/// The squares after `color` plays `m`: the captured piece leaves, then the moving piece (and
/// the castling rook) moves.
pub open spec fn after_move(s: Seq<Option<ColoredPiece>>, m: Move, color: Color) -> Seq<Option<ColoredPiece>> {
    place_piece(after_capture(s, m), m, color)
}

/// `m` can be played by `color` on the squares `s`: its piece stands on the from-square, the
/// piece it takes stands on the capture square, the target is free once that piece is gone,
/// and a castling move finds its rook in the corner and the square beyond the king free.
pub open spec fn move_fits(s: Seq<Option<ColoredPiece>>, m: Move, color: Color) -> bool {
    let from = m.spec_from() as int;
    let to = m.spec_to() as int;
    &&& s.len() == 64
    &&& m.wf()
    &&& m.spec_piece().is_real()
    &&& from != to
    &&& s[from] == Some(ColoredPiece { piece: m.spec_piece(), color })
    &&& m.spec_is_capture() ==> m.spec_captured().is_real() && s[m.spec_capture_square() as int]
        == Some(ColoredPiece { piece: m.spec_captured(), color: color.opposite() })
    &&& after_capture(s, m)[to] is None
    &&& m.spec_is_promotion() ==> m.spec_promoted().is_real()
    &&& m.spec_is_castling() ==> {
        &&& !m.spec_is_capture()
        &&& !m.spec_is_promotion()
        &&& castle_target(to)
        &&& from != rook_from(to)
        &&& from != rook_to(to)
        &&& s[rook_from(to)] == Some(ColoredPiece { piece: Piece::Rook, color })
        &&& s[rook_to(to)] is None
    }
}

/// The squares before the moving piece (and the castling rook) moved: the reverse of
/// `place_piece`.
pub open spec fn lift_piece(s: Seq<Option<ColoredPiece>>, m: Move, color: Color) -> Seq<Option<ColoredPiece>> {
    let to = m.spec_to() as int;
    let u1 = if m.spec_is_castling() {
        s.update(rook_from(to), Some(ColoredPiece { piece: Piece::Rook, color })).update(rook_to(to), None)
    } else {
        s
    };
    u1.update(m.spec_from() as int, Some(ColoredPiece { piece: m.spec_piece(), color })).update(to, None)
}

/// The squares before `color` played `m`: the reverse of `after_move`.
pub open spec fn before_move(s: Seq<Option<ColoredPiece>>, m: Move, color: Color) -> Seq<Option<ColoredPiece>> {
    let u2 = lift_piece(s, m, color);
    if m.spec_is_capture() {
        u2.update(m.spec_capture_square() as int, Some(ColoredPiece { piece: m.spec_captured(), color: color.opposite() }))
    } else {
        u2
    }
}

/// `m`, played by `color`, can be taken back on the squares `s`: the moved piece (promoted
/// if the move promotes) stands on the target, its square is free, a castling rook stands next
/// to the king with its corner free, and the capture square is free once the piece is back.
pub open spec fn unmake_fits(s: Seq<Option<ColoredPiece>>, m: Move, color: Color) -> bool {
    let from = m.spec_from() as int;
    let to = m.spec_to() as int;
    let u1 = if m.spec_is_castling() {
        s.update(rook_from(to), Some(ColoredPiece { piece: Piece::Rook, color })).update(rook_to(to), None)
    } else {
        s
    };
    &&& s.len() == 64
    &&& m.wf()
    &&& m.spec_piece().is_real()
    &&& from != to
    &&& m.spec_is_promotion() ==> m.spec_promoted().is_real()
    &&& m.spec_is_castling() ==> {
        &&& !m.spec_is_promotion()
        &&& castle_target(to)
        &&& from != rook_from(to)
        &&& from != rook_to(to)
        &&& s[rook_from(to)] is None
        &&& s[rook_to(to)] == Some(ColoredPiece { piece: Piece::Rook, color })
    }
    &&& u1[from] is None
    &&& u1[to] == Some(ColoredPiece { piece: landing_piece(m), color })
    &&& m.spec_is_capture() ==> m.spec_captured().is_real() && lift_piece(s, m, color)[m.spec_capture_square() as int] is None
}

/// How many of the recorded game states carry the hash `hash`.
pub open spec fn hash_count(states: Seq<GameState>, hash: u64) -> nat
    decreases states.len(),
{
    if states.len() == 0 {
        0
    } else {
        (if states[0].hash.0 == hash { 1nat } else { 0nat }) + hash_count(states.drop_first(), hash)
    }
}

/// A suffix of the recorded states holds no more copies of a hash than all of them.
pub proof fn lemma_hash_count_suffix(states: Seq<GameState>, i: int, hash: u64)
    requires
        0 <= i <= states.len(),
    ensures
        hash_count(states.subrange(i, states.len() as int), hash) <= hash_count(states, hash),
    decreases i,
{
    if i > 0 {
        lemma_hash_count_suffix(states.drop_first(), i - 1, hash);
        assert(states.drop_first().subrange(i - 1, states.drop_first().len() as int) =~= states.subrange(i, states.len() as int));
        assert(hash_count(states, hash) == (if states[0].hash.0 == hash { 1nat } else { 0nat }) + hash_count(states.drop_first(), hash));
    } else {
        assert(states.subrange(i, states.len() as int) =~= states);
    }
}

/// Exactly one square of `s` holds `color`'s king.
pub open spec fn single_king(s: Seq<Option<ColoredPiece>>, color: Color) -> bool {
    exists|j: int|
        0 <= j < 64 && s[j] == Some(ColoredPiece { piece: Piece::King, color }) && forall|i: int|
            0 <= i < 64 && #[trigger] s[i] == Some(ColoredPiece { piece: Piece::King, color }) ==> i == j
}

/// The castling right that depends on the rook in the corner `sq` (none for other squares).
pub open spec fn corner_right(sq: int) -> int {
    if sq == 0 {
        1
    } else if sq == 7 {
        0
    } else if sq == 56 {
        3
    } else if sq == 63 {
        2
    } else {
        -1
    }
}

/// Whether moving `piece` from `from` for `color` gives up the castling right `i`: a rook
/// leaving its corner, or the king moving.
pub open spec fn mover_loss(piece: Piece, from: int, color: Color, i: int) -> bool {
    ||| piece == Piece::Rook && i == corner_right(from)
    ||| piece == Piece::King && (if color == Color::White {
        i == 0 || i == 1
    } else {
        i == 2 || i == 3
    })
}

/// Whether `m` takes away the castling right with position `i` when `color` plays it: taking
/// a rook on its corner, moving a rook from its corner, or moving the king.
pub open spec fn right_lost(m: Move, color: Color, i: int) -> bool {
    ||| m.spec_is_capture() && m.spec_captured() == Piece::Rook && i == corner_right(m.spec_to() as int)
    ||| mover_loss(m.spec_piece(), m.spec_from() as int, color, i)
}

/// Offset from a pawn's target back to the square it passed over on a double step.
pub open spec fn ep_offset(color: Color) -> int {
    if color == Color::White {
        -8
    } else {
        8
    }
}

/// The game state after the side to move plays `m`, leaving the hash, pins and checks as
/// they were: the other side is to move, the half-move clock restarts on a pawn move or a
/// capture, the move number grows after Black's move, a double pawn step leaves an en passant
/// square and the castling rights lost by the move are gone.
pub open spec fn state_after_move(f: GameState, m: Move) -> GameState {
    let a = f.active;
    GameState {
        active: a.opposite(),
        halfmoves: if m.spec_is_capture() || m.spec_piece() == Piece::Pawn {
            0
        } else {
            (f.halfmoves + 1) as u16
        },
        fullmoves: if a == Color::Black {
            (f.fullmoves + 1) as u16
        } else {
            f.fullmoves
        },
        en_passant: if m.spec_is_double_pawn() {
            Some(
                EnPassant {
                    to_move: Square { index: (m.spec_to() + ep_offset(a)) as u8 },
                    to_capture: Square { index: m.spec_to() as u8 },
                },
            )
        } else {
            None
        },
        white_kingside: f.white_kingside && !right_lost(m, a, 0),
        white_queenside: f.white_queenside && !right_lost(m, a, 1),
        black_kingside: f.black_kingside && !right_lost(m, a, 2),
        black_queenside: f.black_queenside && !right_lost(m, a, 3),
        ..f
    }
}

/// Changing only the en passant part of a state hash, and the stored hash by the same
/// amount, keeps the stored hash's distance to the position hash.
proof fn lemma_ep_drift(h: u64, p: u64, r: u64, x: u64, y: u64)
    ensures
        (h ^ (x ^ y)) ^ (p ^ (r ^ y)) == h ^ (p ^ (r ^ x)),
        x ^ 0 == x,
        0 ^ y == y,
{
    assert((h ^ (x ^ y)) ^ (p ^ (r ^ y)) == h ^ (p ^ (r ^ x)) && x ^ 0 == x && 0 ^ y == y) by (bit_vector);
}

/// A pawn's double-step target and the square it passed over share a file.
proof fn lemma_ep_file(to: u8, offset: i8)
    requires
        to < 64,
        offset == 8 || offset == -8,
    ensures
        ((to as i8 + offset) as u8) % 8 == to % 8,
{
    assert(to < 64 && (offset == 8 || offset == -8) ==> ((to as i8 + offset) as u8) % 8 == to % 8) by (bit_vector);
}

impl GameState {
    /// Whether the castling right with the given position is still held.
    pub open spec fn has_right(self, i: int) -> bool {
        if i == 0 {
            self.white_kingside
        } else if i == 1 {
            self.white_queenside
        } else if i == 2 {
            self.black_kingside
        } else {
            self.black_queenside
        }
    }

    /// The same state without the castling right with the given position.
    pub open spec fn clear_right(self, i: int) -> GameState {
        GameState {
            white_kingside: self.white_kingside && i != 0,
            white_queenside: self.white_queenside && i != 1,
            black_kingside: self.black_kingside && i != 2,
            black_queenside: self.black_queenside && i != 3,
            ..self
        }
    }
}

/// Where exactly one square holds `color`'s king, `color`'s king board has one square.
pub proof fn lemma_king_popcount(b: Board, color: Color)
    requires
        b.consistent(),
        single_king(b.pieces@, color),
    ensures
        popcount(b.piece_board(color, Piece::King).0) == 1,
{
    reveal(super::squares_agree);
    let j = choose|j: int|
        0 <= j < 64 && b.pieces@[j] == Some(ColoredPiece { piece: Piece::King, color }) && forall|i: int|
            0 <= i < 64 && #[trigger] b.pieces@[i] == Some(ColoredPiece { piece: Piece::King, color }) ==> i == j;
    let x = b.piece_board(color, Piece::King).0;
    assert forall|i: u64| i < 64 implies crate::bits::bit_set(x, i) == crate::bits::bit_set(crate::bits::single(j as u64), i) by {
        crate::bits::lemma_bit_single(j as u64, i);
        assert(b.bitboards@[bb_index(color, Piece::King)].has(i as int) <==> b.pieces@[i as int] == Some(ColoredPiece { piece: Piece::King, color }));
    }
    crate::bits::lemma_bits_ext(x, crate::bits::single(j as u64));
    crate::bits::lemma_popcount_single(j as u64);
}

impl<'a> Board<'a> {
    /// `m` can be made on this board: it fits the squares, the move counters have room, and
    /// afterwards exactly one square holds the mover's king.
    pub open spec fn can_make(self, m: Move) -> bool {
        let a = self.gamestate.active;
        &&& move_fits(self.pieces@, m, a)
        &&& m.spec_piece() != Piece::Pawn ==> self.gamestate.halfmoves < 65535
        &&& a == Color::Black ==> self.gamestate.fullmoves < 65535
        &&& single_king(after_move(self.pieces@, m, a), a)
    }

    /// What `make` leaves when called on `old` with `m`.
    pub open spec fn made_from(self, old: Board, m: Move) -> bool {
        let a = old.gamestate.active;
        &&& self.consistent()
        &&& self.hasher == old.hasher
        &&& self.pieces@ == after_move(old.pieces@, m, a)
        &&& self.history@ == old.history@.push(old.gamestate)
        &&& self.gamestate == GameState {
            hash: self.gamestate.hash,
            pinned: pin_check_for(self, a).pinned,
            checkers: pin_check_for(self, a).checkers,
            ..state_after_move(old.gamestate, m)
        }
        &&& self.drift() == old.drift()
    }

    /// What `make_null` leaves when called on `old`: the pieces where they were, the game
    /// state recorded, the en passant square cleared, the move number grown after Black's turn
    /// and the other side to move.
    pub open spec fn null_made_from(self, old: Board) -> bool {
        &&& self.hasher == old.hasher
        &&& self.pieces == old.pieces
        &&& self.bitboards == old.bitboards
        &&& self.white == old.white
        &&& self.black == old.black
        &&& self.occupied == old.occupied
        &&& self.history@ == old.history@.push(old.gamestate)
        &&& self.gamestate == (GameState {
            active: old.gamestate.active.opposite(),
            en_passant: None,
            fullmoves: if old.gamestate.active == Color::Black {
                (old.gamestate.fullmoves + 1) as u16
            } else {
                old.gamestate.fullmoves
            },
            hash: self.gamestate.hash,
            ..old.gamestate
        })
        &&& self.drift() == old.drift()
    }

    /// What `unmake_null` leaves when called on `old`: the last recorded game state back in
    /// place (when there is one), everything else as it was.
    pub open spec fn null_unmade_from(self, old: Board) -> bool {
        &&& self == (Board {
            gamestate: if old.history@.len() > 0 {
                old.history@.last()
            } else {
                old.gamestate
            },
            history: self.history,
            ..old
        })
        &&& self.history@ == (if old.history@.len() > 0 {
            old.history@.drop_last()
        } else {
            old.history@
        })
    }

    /// What `unmake` leaves when called on `old` with `m`: the squares before the move, and
    /// the last recorded game state (when there is one).
    pub open spec fn unmade_from(self, old: Board, m: Move) -> bool {
        let a = old.gamestate.active.opposite();
        &&& self.consistent()
        &&& self.hasher == old.hasher
        &&& self.pieces@ == before_move(old.pieces@, m, a)
        &&& if old.history@.len() > 0 {
            &&& self.history@ == old.history@.drop_last()
            &&& self.gamestate == old.history@.last()
        } else {
            &&& self.history@ == old.history@
            &&& self.gamestate == GameState { active: a, hash: self.gamestate.hash, ..old.gamestate }
            &&& self.drift() == old.drift() ^ ep_hash(*old.hasher, old.gamestate)
        }
    }

    /// Hands the move to the other side: the side to move flips and the hash changes by the
    /// side key.
    pub fn swap_active(&mut self)
        ensures
            *final(self) == (Board {
                gamestate: GameState {
                    active: old(self).gamestate.active.opposite(),
                    hash: super::zobrist::ZobristHash(old(self).gamestate.hash.0 ^ old(self).hasher.side.0),
                    ..old(self).gamestate
                },
                ..*old(self)
            }),
            final(self).drift() == old(self).drift(),
    {
        let ghost before = *self;
        self.gamestate.active = self.gamestate.active.not();
        self.gamestate.hash = self.gamestate.hash ^ self.hasher.side_hash();
        proof {
            let h = *before.hasher;
            let f = before.gamestate;
            let g = self.gamestate;
            let k = h.side.0;
            let t0 = if f.active == Color::Black { h.side.0 } else { 0u64 };
            let t1 = if f.white_kingside { h.castling@[0].0 } else { 0u64 };
            let t2 = if f.white_queenside { h.castling@[1].0 } else { 0u64 };
            let t3 = if f.black_kingside { h.castling@[2].0 } else { 0u64 };
            let t4 = if f.black_queenside { h.castling@[3].0 } else { 0u64 };
            let t5 = match f.en_passant {
                Some(ep) => h.en_passant_key(ep.to_capture.spec_file()),
                None => 0u64,
            };
            lemma_xor_chain(t0, t1, t2, t3, t4, t5, k);
            crate::bits::lemma_xor_facts(0, k, k);
            crate::bits::lemma_xor_facts(k, k, 0);
            if f.active == Color::Black {
                assert(t0 ^ k == 0);
            } else {
                assert(t0 ^ k == k);
            }
            assert(state_hash(h, g) == state_hash(h, f) ^ k);
            let p = pieces_hash(h, before.pieces@, 64);
            lemma_xor_drift(f.hash.0, p, state_hash(h, f), k);
            crate::bits::lemma_xor_facts(p, state_hash(h, f), k);
        }
    }

    /// Takes away `color`'s castling right on the king's side (`short`) or the queen's side;
    /// the hash changes by the right's key if the right was held.
    pub fn remove_castle(&mut self, color: Color, short: bool)
        requires
            old(self).hasher.wf(),
        ensures
            *final(self) == (Board {
                gamestate: old(self).gamestate.clear_right(castle_index(color, short)).with_hash(
                    if old(self).gamestate.has_right(castle_index(color, short)) {
                        old(self).gamestate.hash.0 ^ old(self).hasher.castling@[castle_index(color, short)].0
                    } else {
                        old(self).gamestate.hash.0
                    },
                ),
                ..*old(self)
            }),
            final(self).drift() == old(self).drift(),
    {
        let ghost before = *self;
        match (color, short) {
            (Color::White, true) => {
                if self.gamestate.white_kingside {
                    self.gamestate.white_kingside = false;
                    self.gamestate.hash = self.gamestate.hash ^ self.hasher.castling[0];
                }
            },
            (Color::White, false) => {
                if self.gamestate.white_queenside {
                    self.gamestate.white_queenside = false;
                    self.gamestate.hash = self.gamestate.hash ^ self.hasher.castling[1];
                }
            },
            (Color::Black, true) => {
                if self.gamestate.black_kingside {
                    self.gamestate.black_kingside = false;
                    self.gamestate.hash = self.gamestate.hash ^ self.hasher.castling[2];
                }
            },
            (Color::Black, false) => {
                if self.gamestate.black_queenside {
                    self.gamestate.black_queenside = false;
                    self.gamestate.hash = self.gamestate.hash ^ self.hasher.castling[3];
                }
            },
        }
        proof {
            let i = castle_index(color, short);
            if before.gamestate.has_right(i) {
                let h = *before.hasher;
                let f = before.gamestate;
                let k = h.castling@[i].0;
                let t0 = if f.active == Color::Black { h.side.0 } else { 0u64 };
                let t1 = if f.white_kingside { h.castling@[0].0 } else { 0u64 };
                let t2 = if f.white_queenside { h.castling@[1].0 } else { 0u64 };
                let t3 = if f.black_kingside { h.castling@[2].0 } else { 0u64 };
                let t4 = if f.black_queenside { h.castling@[3].0 } else { 0u64 };
                let t5 = match f.en_passant {
                    Some(ep) => h.en_passant_key(ep.to_capture.spec_file()),
                    None => 0u64,
                };
                lemma_xor_chain(t0, t1, t2, t3, t4, t5, k);
                crate::bits::lemma_xor_facts(k, k, 0);
                assert(state_hash(h, self.gamestate) == state_hash(h, f) ^ k);
                let p = pieces_hash(h, before.pieces@, 64);
                lemma_xor_drift(f.hash.0, p, state_hash(h, f), k);
            } else {
                assert(self.gamestate == before.gamestate);
            }
        }
    }

    /// Takes away the castling right that depends on a rook in the corner `sq` (nothing for
    /// other squares).
    fn lose_corner_right(&mut self, sq: u8)
        requires
            old(self).hasher.wf(),
        ensures
            *final(self) == (Board {
                gamestate: old(self).gamestate.clear_right(corner_right(sq as int)).with_hash(final(self).gamestate.hash.0),
                ..*old(self)
            }),
            final(self).drift() == old(self).drift(),
    {
        if sq == A1 {
            self.remove_castle(Color::White, false);
        } else if sq == H1 {
            self.remove_castle(Color::White, true);
        } else if sq == A8 {
            self.remove_castle(Color::Black, false);
        } else if sq == H8 {
            self.remove_castle(Color::Black, true);
        }
    }

    /// Takes `color`'s `piece` off `from` and puts `landing` on `to` (the same kind, or the
    /// piece a pawn promotes to).
    fn relocate(&mut self, color: Color, piece: Piece, from: Square, landing: Piece, to: Square)
        requires
            old(self).consistent(),
            piece.is_real(),
            landing.is_real(),
            from.wf(),
            to.wf(),
            from.index != to.index,
            old(self).pieces@[from.index as int] == Some(ColoredPiece { piece, color }),
            old(self).pieces@[to.index as int] is None,
        ensures
            final(self).consistent(),
            final(self).hasher == old(self).hasher,
            final(self).history@ == old(self).history@,
            final(self).pieces@ == old(self).pieces@.update(from.index as int, None).update(
                to.index as int,
                Some(ColoredPiece { piece: landing, color }),
            ),
            final(self).gamestate == old(self).gamestate.with_hash(final(self).gamestate.hash.0),
            final(self).drift() == old(self).drift(),
    {
        self.toggle(color, piece, from);
        self.toggle(color, landing, to);
    }

    /// Clears the en passant square, taking its key out of the hash.
    fn clear_en_passant(&mut self)
        requires
            old(self).hasher.wf(),
        ensures
            *final(self) == (Board {
                gamestate: GameState { en_passant: None, hash: final(self).gamestate.hash, ..old(self).gamestate },
                ..*old(self)
            }),
            final(self).drift() == old(self).drift(),
    {
        if let Some(en_passant) = self.gamestate.en_passant {
            let ghost f = self.gamestate;
            self.gamestate.hash = self.gamestate.hash ^ self.hasher.en_passant_hash(en_passant.to_capture);
            self.gamestate.en_passant = None;
            proof {
                let h = *self.hasher;
                let k = h.en_passant_key(en_passant.to_capture.spec_file());
                assert(rights_hash(h, self.gamestate) == rights_hash(h, f));
                lemma_ep_drift(f.hash.0, pieces_hash(h, self.pieces@, 64), rights_hash(h, f), k, 0);
            }
        }
    }

    /// Records the en passant square left by a pawn of the side to move stepping two squares
    /// to `to`, putting its key into the hash.
    fn set_en_passant(&mut self, to: Square)
        requires
            old(self).hasher.wf(),
            old(self).gamestate.en_passant is None,
            to.wf(),
        ensures
            *final(self) == (Board {
                gamestate: GameState {
                    en_passant: Some(
                        EnPassant {
                            to_move: Square { index: (to.index + ep_offset(old(self).gamestate.active)) as u8 },
                            to_capture: to,
                        },
                    ),
                    hash: final(self).gamestate.hash,
                    ..old(self).gamestate
                },
                ..*old(self)
            }),
            final(self).drift() == old(self).drift(),
    {
        let ghost f = self.gamestate;
        let offset = self.gamestate.active.en_passant_offset();
        let to_move_index = (to.index as i8) + offset;
        let to_move = Square { index: to_move_index as u8 };
        self.gamestate.en_passant = Some(EnPassant::new(to_move, to));
        let key = self.hasher.en_passant_hash(to_move);
        self.gamestate.hash = self.gamestate.hash ^ key;
        proof {
            let h = *self.hasher;
            lemma_ep_file(to.index, offset);
            assert(key.0 == h.en_passant_key(to.spec_file()));
            assert(rights_hash(h, self.gamestate) == rights_hash(h, f));
            lemma_ep_drift(f.hash.0, pieces_hash(h, self.pieces@, 64), rights_hash(h, f), 0, key.0);
        }
    }

    /// Takes the piece `m` captures off the board; the half-move clock restarts and a rook
    /// taken on its corner takes its castling right with it.
    fn take_captured(&mut self, m: Move)
        requires
            old(self).consistent(),
            move_fits(old(self).pieces@, m, old(self).gamestate.active),
        ensures
            final(self).consistent(),
            final(self).hasher == old(self).hasher,
            final(self).history@ == old(self).history@,
            final(self).pieces@ == after_capture(old(self).pieces@, m),
            final(self).gamestate == (GameState {
                hash: final(self).gamestate.hash,
                halfmoves: if m.spec_is_capture() { 0 } else { old(self).gamestate.halfmoves },
                ..old(self).gamestate.clear_right(
                    if m.spec_is_capture() && m.spec_captured() == Piece::Rook { corner_right(m.spec_to() as int) } else { -1 },
                )
            }),
            final(self).drift() == old(self).drift(),
    {
        if m.is_capture() {
            let to = m.to();
            let capture_square = m.capture_square();
            let captured_piece = m.captured_piece();
            self.toggle(self.gamestate.active.not(), captured_piece, capture_square);
            self.gamestate.halfmoves = 0;
            if captured_piece == Piece::Rook {
                self.lose_corner_right(to.index);
            }
        }
    }

    /// Moves the piece of `m` (promoting it if the move promotes), drops the castling rights
    /// the moving piece gives up, and moves the rook when castling.
    fn shift_pieces(&mut self, m: Move)
        requires
            old(self).consistent(),
            exists|s0: Seq<Option<ColoredPiece>>| move_fits(s0, m, old(self).gamestate.active) && old(self).pieces@ == after_capture(s0, m),
        ensures
            final(self).consistent(),
            final(self).hasher == old(self).hasher,
            final(self).history@ == old(self).history@,
            final(self).pieces@ == place_piece(old(self).pieces@, m, old(self).gamestate.active),
            final(self).gamestate == (GameState {
                hash: final(self).gamestate.hash,
                white_kingside: old(self).gamestate.white_kingside && !mover_loss(m.spec_piece(), m.spec_from() as int, old(self).gamestate.active, 0),
                white_queenside: old(self).gamestate.white_queenside && !mover_loss(m.spec_piece(), m.spec_from() as int, old(self).gamestate.active, 1),
                black_kingside: old(self).gamestate.black_kingside && !mover_loss(m.spec_piece(), m.spec_from() as int, old(self).gamestate.active, 2),
                black_queenside: old(self).gamestate.black_queenside && !mover_loss(m.spec_piece(), m.spec_from() as int, old(self).gamestate.active, 3),
                ..old(self).gamestate
            }),
            final(self).drift() == old(self).drift(),
    {
        let piece = m.piece();
        let from = m.from();
        let to = m.to();
        let ghost a = self.gamestate.active;
        let ghost s1 = self.pieces@;
        let ghost s0 = choose|s0: Seq<Option<ColoredPiece>>| move_fits(s0, m, old(self).gamestate.active) && old(self).pieces@ == after_capture(s0, m);
        proof {
            crate::generation::mov::lemma_masks(m.0);
            if m.spec_is_capture() {
                assert(s0[m.spec_capture_square() as int] != s0[m.spec_from() as int]) by {
                    crate::board::color::lemma_opposite_involutive(a);
                }
            }
            assert(s1[from.index as int] == Some(ColoredPiece { piece, color: a }));
        }

        if !m.is_promotion() {
            self.relocate(self.gamestate.active, piece, from, piece, to);
        }

        if piece == Piece::Rook {
            self.lose_corner_right(from.index);
        } else if piece == Piece::King {
            self.remove_castle(self.gamestate.active, false);
            self.remove_castle(self.gamestate.active, true);
        }

        if m.is_castling() {
            if to.index == G1 {
                self.relocate(self.gamestate.active, Piece::Rook, Square::by_index(H1), Piece::Rook, Square::by_index(F1));
            } else if to.index == C1 {
                self.relocate(self.gamestate.active, Piece::Rook, Square::by_index(A1), Piece::Rook, Square::by_index(D1));
            } else if to.index == G8 {
                self.relocate(self.gamestate.active, Piece::Rook, Square::by_index(H8), Piece::Rook, Square::by_index(F8));
            } else {
                self.relocate(self.gamestate.active, Piece::Rook, Square::by_index(A8), Piece::Rook, Square::by_index(D8));
            }
        } else if m.is_promotion() {
            let promoted = m.promoted_piece();
            self.relocate(self.gamestate.active, piece, from, promoted, to);
        }
    }

    /// Plays `m` for the side to move: records the game state, clears the en passant
    /// square, updates the move counters, sets a new en passant square after a double pawn
    /// step, takes the captured piece off, moves the piece (promoting it if the move promotes),
    /// moves the rook when castling, drops the castling rights the move loses, records the
    /// pins and checks against the mover's king and hands the move to the other side.
    pub fn make(&mut self, mov: &Move)
        requires
            old(self).consistent(),
            old(self).can_make(*mov),
        ensures
            final(self).made_from(*old(self), *mov),
    {
        let ghost b0 = *self;
        let ghost a = self.gamestate.active;
        let ghost s0 = self.pieces@;
        let m = *mov;

        let gamestate = self.gamestate;
        self.history.push(gamestate);

        // Each turn reset the en passant square
        self.clear_en_passant();

        let piece = m.piece();
        let to = m.to();

        if piece == Piece::Pawn {
            self.gamestate.halfmoves = 0;
        } else {
            self.gamestate.halfmoves = self.gamestate.halfmoves + 1;
        }

        if self.gamestate.active == Color::Black {
            self.gamestate.fullmoves = self.gamestate.fullmoves + 1;
        }

        if m.is_double_pawn() {
            self.set_en_passant(to);
        }
        assert(self.drift() == b0.drift());

        self.take_captured(m);
        self.shift_pieces(m);

        proof {
            lemma_king_popcount(*self, a);
        }
        let pin_check_state = self.get_pin_check_state();
        self.gamestate.checkers = pin_check_state.checkers;
        self.gamestate.pinned = pin_check_state.pinned;

        self.swap_active();
    }

    /// Toggles `color`'s `p1` on `sq1`, then `color`'s `p2` on `sq2`.
    fn toggle_pair(&mut self, color: Color, p1: Piece, sq1: Square, p2: Piece, sq2: Square)
        requires
            old(self).consistent(),
            p1.is_real(),
            p2.is_real(),
            sq1.wf(),
            sq2.wf(),
            toggle_ok(old(self).pieces@, sq1.index as int, ColoredPiece { piece: p1, color }),
            toggle_ok(
                toggle_seq(old(self).pieces@, sq1.index as int, ColoredPiece { piece: p1, color }),
                sq2.index as int,
                ColoredPiece { piece: p2, color },
            ),
        ensures
            final(self).consistent(),
            final(self).hasher == old(self).hasher,
            final(self).history@ == old(self).history@,
            final(self).pieces@ == toggle_seq(
                toggle_seq(old(self).pieces@, sq1.index as int, ColoredPiece { piece: p1, color }),
                sq2.index as int,
                ColoredPiece { piece: p2, color },
            ),
            final(self).gamestate == old(self).gamestate.with_hash(final(self).gamestate.hash.0),
            final(self).drift() == old(self).drift(),
    {
        self.toggle(color, p1, sq1);
        self.toggle(color, p2, sq2);
    }

    /// Puts the piece `m` moved (and the castling rook) back where it came from, the side to
    /// move being the side that played `m`.
    fn put_back_pieces(&mut self, m: Move)
        requires
            old(self).consistent(),
            unmake_fits(old(self).pieces@, m, old(self).gamestate.active),
        ensures
            final(self).consistent(),
            final(self).hasher == old(self).hasher,
            final(self).history@ == old(self).history@,
            final(self).pieces@ == lift_piece(old(self).pieces@, m, old(self).gamestate.active),
            final(self).gamestate == old(self).gamestate.with_hash(final(self).gamestate.hash.0),
            final(self).drift() == old(self).drift(),
    {
        let piece = m.piece();
        let from = m.from();
        let to = m.to();
        let ghost a = self.gamestate.active;
        let ghost s = self.pieces@;
        proof {
            crate::generation::mov::lemma_masks(m.0);
        }

        if m.is_castling() {
            if to.index == G1 {
                self.toggle_pair(self.gamestate.active, Piece::Rook, Square::by_index(H1), Piece::Rook, Square::by_index(F1));
            } else if to.index == C1 {
                self.toggle_pair(self.gamestate.active, Piece::Rook, Square::by_index(A1), Piece::Rook, Square::by_index(D1));
            } else if to.index == G8 {
                self.toggle_pair(self.gamestate.active, Piece::Rook, Square::by_index(H8), Piece::Rook, Square::by_index(F8));
            } else {
                self.toggle_pair(self.gamestate.active, Piece::Rook, Square::by_index(A8), Piece::Rook, Square::by_index(D8));
            }
        } else if m.is_promotion() {
            let promoted = m.promoted_piece();
            self.toggle_pair(self.gamestate.active, piece, from, promoted, to);
        }

        if !m.is_promotion() {
            self.toggle_pair(self.gamestate.active, piece, from, piece, to);
        }
        assert(self.pieces@ == lift_piece(s, m, a));
    }

    /// Takes back `m`, the last move played: hands the move back, puts the moved piece (and
    /// the castling rook) back, returns the captured piece, and restores the game state
    /// recorded before the move.
    pub fn unmake(&mut self, mov: &Move)
        requires
            old(self).consistent(),
            unmake_fits(old(self).pieces@, *mov, old(self).gamestate.active.opposite()),
        ensures
            final(self).unmade_from(*old(self), *mov),
    {
        let ghost b0 = *self;
        let ghost a = self.gamestate.active.opposite();
        let m = *mov;

        self.swap_active();

        self.put_back_pieces(m);

        if m.is_capture() {
            let capture_square = m.capture_square();
            let captured_piece = m.captured_piece();
            self.toggle(self.gamestate.active.not(), captured_piece, capture_square);
        }
        assert(self.pieces@ == before_move(b0.pieces@, m, a));

        if let Some(en_passant) = self.gamestate.en_passant {
            let ghost f = self.gamestate;
            let key = self.hasher.en_passant_hash(en_passant.to_capture);
            self.gamestate.hash = self.gamestate.hash ^ key;
            proof {
                let h = *self.hasher;
                let ff = full_hash(h, self.pieces@, f);
                assert(full_hash(h, self.pieces@, self.gamestate) == ff);
                crate::bits::lemma_xor_facts(f.hash.0, key.0, ff);
                crate::bits::lemma_xor_facts(key.0, ff, 0);
                crate::bits::lemma_xor_facts(f.hash.0, ff, key.0);
            }
        } else {
            proof {
                crate::bits::lemma_xor_facts(self.drift(), 0, 0);
            }
        }

        let gamestate = self.history.pop();
        if let Some(gamestate) = gamestate {
            self.gamestate = gamestate;
        }
    }

    /// Passes the move to the other side without moving a piece: records the game state,
    /// clears the en passant square, counts the move after Black's turn and hands the move
    /// over.
    pub fn make_null(&mut self)
        requires
            old(self).hasher.wf(),
            old(self).gamestate.active == Color::Black ==> old(self).gamestate.fullmoves < 65535,
        ensures
            final(self).null_made_from(*old(self)),
    {
        let gamestate = self.gamestate;
        self.history.push(gamestate);

        // Each turn reset the en passant square
        self.clear_en_passant();

        if self.gamestate.active == Color::Black {
            self.gamestate.fullmoves = self.gamestate.fullmoves + 1;
        }

        self.swap_active();
    }

    /// Restores the last recorded game state, if there is one.
    pub fn unmake_null(&mut self)
        ensures
            final(self).null_unmade_from(*old(self)),
    {
        let game_state = self.history.pop();
        if let Some(game_state) = game_state {
            self.gamestate = game_state;
        }
    }

    /// Whether the current position's hash occurs at least three times among the recorded
    /// game states.
    pub fn is_threefold_repetition(&self) -> (r: bool)
        ensures
            r == (hash_count(self.history@, self.gamestate.hash.0) >= 3),
    {
        let mut count: usize = 0;
        let mut i: usize = self.history.len();
        let ghost hs = self.history@;
        let ghost h = self.gamestate.hash.0;
        proof {
            assert(hs.subrange(i as int, hs.len() as int).len() == 0);
            assert(hash_count(hs.subrange(i as int, hs.len() as int), h) == 0);
        }
        while i > 0
            invariant_except_break
                count < 3,
            invariant
                i <= hs.len(),
                hs == self.history@,
                h == self.gamestate.hash.0,
                count == hash_count(hs.subrange(i as int, hs.len() as int), h),
            ensures
                count == 3 ==> hash_count(hs, h) >= 3,
                count < 3 ==> i == 0 && count == hash_count(hs.subrange(i as int, hs.len() as int), h),
                count <= 3,
            decreases i,
        {
            let ghost tail = hs.subrange(i as int, hs.len() as int);
            i = i - 1;
            let ghost next = hs.subrange(i as int, hs.len() as int);
            proof {
                assert(next.drop_first() =~= tail);
                assert(next[0] == hs[i as int]);
                assert(hash_count(next, h) == (if next[0].hash.0 == h { 1nat } else { 0nat }) + hash_count(next.drop_first(), h));
            }
            if self.history[i].hash.0 == self.gamestate.hash.0 {
                count = count + 1;
            }

            if count == 3 {
                proof {
                    lemma_hash_count_suffix(hs, i as int, h);
                }
                break;
            }
        }
        proof {
            if count < 3 {
                assert(hs.subrange(i as int, hs.len() as int) =~= hs);
            }
        }
        count == 3
    }

}

/// Taking back a move on the squares it was played on returns them to what they were, and
/// the squares after the move allow taking it back.
pub proof fn lemma_before_after(s: Seq<Option<ColoredPiece>>, m: Move, color: Color)
    requires
        move_fits(s, m, color),
    ensures
        unmake_fits(after_move(s, m, color), m, color),
        before_move(after_move(s, m, color), m, color) == s,
{
    crate::generation::mov::lemma_masks(m.0);
    crate::board::color::lemma_opposite_involutive(color);
    let from = m.spec_from() as int;
    let to = m.spec_to() as int;
    let s1 = after_capture(s, m);
    let s2 = s1.update(from, None).update(to, Some(ColoredPiece { piece: landing_piece(m), color }));
    let s3 = after_move(s, m, color);
    if m.spec_is_capture() {
        assert(s[m.spec_capture_square() as int] != s[from]);
    }
    let u1 = if m.spec_is_castling() {
        s3.update(rook_from(to), Some(ColoredPiece { piece: Piece::Rook, color })).update(rook_to(to), None)
    } else {
        s3
    };
    assert(u1 =~= s2);
    assert(lift_piece(s3, m, color) =~= s1);
    assert(before_move(s3, m, color) =~= s);
}

/// Two boards that agree with the same squares have the same bitboards.
pub proof fn lemma_same_squares_same_bitboards(a: Board, b: Board)
    requires
        a.consistent(),
        b.consistent(),
        a.pieces@ == b.pieces@,
    ensures
        a.bitboards@ == b.bitboards@,
        a.white == b.white,
        a.black == b.black,
        a.occupied == b.occupied,
{
    reveal(super::squares_agree);
    assert forall|k: int| 0 <= k < 12 implies a.bitboards@[k] == b.bitboards@[k] by {
        let c = if k >= 6 { Color::White } else { Color::Black };
        let p = if k % 6 == 0 {
            Piece::Pawn
        } else if k % 6 == 1 {
            Piece::Knight
        } else if k % 6 == 2 {
            Piece::Bishop
        } else if k % 6 == 3 {
            Piece::Rook
        } else if k % 6 == 4 {
            Piece::Queen
        } else {
            Piece::King
        };
        assert(bb_index(c, p) == k);
        assert forall|i: u64| i < 64 implies crate::bits::bit_set(a.bitboards@[k].0, i) == crate::bits::bit_set(b.bitboards@[k].0, i) by {
            assert(a.bitboards@[bb_index(c, p)].has(i as int) <==> a.pieces@[i as int] == Some(ColoredPiece { piece: p, color: c }));
            assert(b.bitboards@[bb_index(c, p)].has(i as int) <==> b.pieces@[i as int] == Some(ColoredPiece { piece: p, color: c }));
        }
        crate::bits::lemma_bits_ext(a.bitboards@[k].0, b.bitboards@[k].0);
    }
    assert(a.bitboards@ =~= b.bitboards@);
    assert forall|i: u64| i < 64 implies crate::bits::bit_set(a.white.0, i) == crate::bits::bit_set(b.white.0, i) by {
        assert(a.white.has(i as int) == b.white.has(i as int));
    }
    crate::bits::lemma_bits_ext(a.white.0, b.white.0);
    assert forall|i: u64| i < 64 implies crate::bits::bit_set(a.black.0, i) == crate::bits::bit_set(b.black.0, i) by {
        assert(a.black.has(i as int) == b.black.has(i as int));
    }
    crate::bits::lemma_bits_ext(a.black.0, b.black.0);
    assert forall|i: u64| i < 64 implies crate::bits::bit_set(a.occupied.0, i) == crate::bits::bit_set(b.occupied.0, i) by {
        assert(a.occupied.has(i as int) == b.occupied.has(i as int));
    }
    crate::bits::lemma_bits_ext(a.occupied.0, b.occupied.0);
}

/// The board after a move allows taking the move back.
pub proof fn lemma_made_can_unmake(b0: Board, b1: Board, m: Move)
    requires
        b0.consistent(),
        b0.can_make(m),
        b1.made_from(b0, m),
    ensures
        b1.consistent(),
        unmake_fits(b1.pieces@, m, b1.gamestate.active.opposite()),
{
    crate::board::color::lemma_opposite_involutive(b0.gamestate.active);
    lemma_before_after(b0.pieces@, m, b0.gamestate.active);
}

/// The rook squares of a castling whose king goes to `to`: h1 and f1 for g1, a1 and d1 for
/// c1, h8 and f8 for g8, a8 and d8 for c8.
pub open spec fn castling_rook_square(to: int, j: int) -> bool {
    ||| to == 6 && (j == 7 || j == 5)
    ||| to == 2 && (j == 0 || j == 3)
    ||| to == 62 && (j == 63 || j == 61)
    ||| to == 58 && (j == 56 || j == 59)
}

/// Law: what a move does to the squares. The piece leaves its square and stands on the target,
/// as the promoted piece for a promotion; a piece taken elsewhere than on the target (en
/// passant) leaves its square; castling also moves the rook from its corner to the square
/// the king passed over; every other square keeps what it held.
pub proof fn lemma_make_squares(board: Board, m: Move, after: Board)
    requires
        after.made_from(board, m),
        move_fits(board.pieces@, m, board.gamestate.active),
    ensures
        ({
            let a = board.gamestate.active;
            let s = board.pieces@;
            let t = after.pieces@;
            let from = m.spec_from() as int;
            let to = m.spec_to() as int;
            let cs = m.spec_capture_square() as int;
            &&& t[to] == Some(ColoredPiece { piece: if m.spec_is_promotion() { m.spec_promoted() } else { m.spec_piece() }, color: a })
            &&& t[from] is None
            &&& m.spec_is_capture() && cs != to ==> t[cs] is None
            &&& m.spec_is_castling() && to == 6 ==> t[5] == Some(ColoredPiece { piece: Piece::Rook, color: a }) && t[7] is None
            &&& m.spec_is_castling() && to == 2 ==> t[3] == Some(ColoredPiece { piece: Piece::Rook, color: a }) && t[0] is None
            &&& m.spec_is_castling() && to == 62 ==> t[61] == Some(ColoredPiece { piece: Piece::Rook, color: a }) && t[63] is None
            &&& m.spec_is_castling() && to == 58 ==> t[59] == Some(ColoredPiece { piece: Piece::Rook, color: a }) && t[56] is None
            &&& forall|j: int|
                0 <= j < 64 && j != from && j != to && !(m.spec_is_capture() && j == cs) && !(m.spec_is_castling()
                    && castling_rook_square(to, j)) ==> #[trigger] t[j] == s[j]
        }),
{
    crate::generation::mov::lemma_masks(m.0);
}

/// Law: what a move does to the game state besides the pieces. The other side is to move; the
/// half-move clock restarts after a pawn move or a capture and otherwise grows by one; the move
/// number grows by one after Black's move only; an en passant square is left only by a double
/// pawn step; and a castling right survives exactly when its side's king did not move, nothing
/// left its rook's corner (h1, a1, h8, a8) and no rook was taken there.
pub proof fn lemma_make_game_state(board: Board, m: Move, after: Board)
    requires
        after.made_from(board, m),
        board.gamestate.halfmoves < 65535,
        board.gamestate.fullmoves < 65535,
    ensures
        ({
            let g = board.gamestate;
            let h = after.gamestate;
            let a = g.active;
            let king = m.spec_piece() == Piece::King;
            let left = |sq: int| m.spec_piece() == Piece::Rook && m.spec_from() == sq;
            let taken = |sq: int| m.spec_is_capture() && m.spec_captured() == Piece::Rook && m.spec_to() == sq;
            &&& h.active == a.opposite()
            &&& h.halfmoves == (if m.spec_piece() == Piece::Pawn || m.spec_is_capture() { 0 } else { g.halfmoves + 1 })
            &&& h.fullmoves == (if a == Color::Black { g.fullmoves + 1 } else { g.fullmoves as int })
            &&& (h.en_passant is Some <==> m.spec_is_double_pawn())
            &&& h.white_kingside == (g.white_kingside && !(king && a == Color::White) && !left(7) && !taken(7))
            &&& h.white_queenside == (g.white_queenside && !(king && a == Color::White) && !left(0) && !taken(0))
            &&& h.black_kingside == (g.black_kingside && !(king && a == Color::Black) && !left(63) && !taken(63))
            &&& h.black_queenside == (g.black_queenside && !(king && a == Color::Black) && !left(56) && !taken(56))
        }),
{
}

/// Making a move and then taking it back gives back the board as it was: the same squares,
/// bitboards, game state (hash included) and recorded history. The board after the move
/// always allows taking the move back.
pub proof fn lemma_unmake_undoes_make(b0: Board, b1: Board, b2: Board, m: Move)
    requires
        b0.consistent(),
        b0.can_make(m),
        b1.made_from(b0, m),
        b2.unmade_from(b1, m),
    ensures
        unmake_fits(b1.pieces@, m, b1.gamestate.active.opposite()),
        b2.pieces@ == b0.pieces@,
        b2.bitboards@ == b0.bitboards@,
        b2.white == b0.white,
        b2.black == b0.black,
        b2.occupied == b0.occupied,
        b2.gamestate == b0.gamestate,
        b2.history@ == b0.history@,
        b2.hasher == b0.hasher,
{
    let a = b0.gamestate.active;
    crate::board::color::lemma_opposite_involutive(a);
    lemma_before_after(b0.pieces@, m, a);
    assert(b1.history@.len() > 0);
    assert(b1.history@.drop_last() =~= b0.history@);
    lemma_same_squares_same_bitboards(b0, b2);
}

/// Passing the move and then taking the pass back gives back the board as it was.
pub proof fn lemma_unmake_null_undoes_make_null(b0: Board, b1: Board, b2: Board)
    requires
        b1.null_made_from(b0),
        b2.null_unmade_from(b1),
    ensures
        b2.pieces == b0.pieces,
        b2.bitboards == b0.bitboards,
        b2.white == b0.white,
        b2.black == b0.black,
        b2.occupied == b0.occupied,
        b2.gamestate == b0.gamestate,
        b2.history@ == b0.history@,
        b2.hasher == b0.hasher,
{
    assert(b1.history@.drop_last() =~= b0.history@);
}

/// Making a move keeps a right hash right: after `make`, the stored hash is again the hash of
/// the position.
pub proof fn lemma_make_keeps_hash(b0: Board, b1: Board, m: Move)
    requires
        b0.hash_ok(),
        b1.made_from(b0, m),
    ensures
        b1.hash_ok(),
{
    crate::bits::lemma_xor_drift(b0.gamestate.hash.0, full_hash(*b0.hasher, b0.pieces@, b0.gamestate), 0, 0);
    crate::bits::lemma_xor_drift(b1.gamestate.hash.0, full_hash(*b1.hasher, b1.pieces@, b1.gamestate), 0, 0);
}

/// Passing the move keeps a right hash right.
pub proof fn lemma_make_null_keeps_hash(b0: Board, b1: Board)
    requires
        b0.hash_ok(),
        b1.null_made_from(b0),
    ensures
        b1.hash_ok(),
{
    crate::bits::lemma_xor_drift(b0.gamestate.hash.0, full_hash(*b0.hasher, b0.pieces@, b0.gamestate), 0, 0);
    crate::bits::lemma_xor_drift(b1.gamestate.hash.0, full_hash(*b1.hasher, b1.pieces@, b1.gamestate), 0, 0);
}

/// Where the side's king board has one square, exactly one square holds its king.
pub proof fn lemma_single_king_of_board(b: Board, color: Color)
    requires
        b.consistent(),
        popcount(b.piece_board(color, Piece::King).0) == 1,
    ensures
        single_king(b.pieces@, color),
{
    let x = b.piece_board(color, Piece::King).0;
    crate::bits::lemma_popcount_one(x);
    let j = vstd::std_specs::bits::u64_trailing_zeros(x) as int;
    let king = ColoredPiece { piece: Piece::King, color };
    assert forall|i: int| 0 <= i < 64 && #[trigger] b.pieces@[i] == Some(king) implies i == j by {
        super::lemma_piece_board_has(b, color, Piece::King, i);
        crate::bits::lemma_bit_single(j as u64, i as u64);
    }
    super::lemma_piece_board_has(b, color, Piece::King, j);
    crate::bits::lemma_bit_single(j as u64, j as u64);
    assert(b.pieces@[j] == Some(king));
}

/// A move that fits keeps the mover's single king single, unless it turns a king into
/// another piece or a pawn into a king.
pub proof fn lemma_single_king_kept(s: Seq<Option<ColoredPiece>>, m: Move, color: Color)
    requires
        move_fits(s, m, color),
        single_king(s, color),
        m.spec_is_promotion() ==> m.spec_piece() == Piece::Pawn && m.spec_promoted() != Piece::King,
    ensures
        single_king(after_move(s, m, color), color),
{
    crate::generation::mov::lemma_masks(m.0);
    crate::board::color::lemma_opposite_involutive(color);
    let king = ColoredPiece { piece: Piece::King, color };
    let j = choose|j: int|
        0 <= j < 64 && s[j] == Some(king) && forall|i: int| 0 <= i < 64 && #[trigger] s[i] == Some(king) ==> i == j;
    let t = after_move(s, m, color);
    let from = m.spec_from() as int;
    let to = m.spec_to() as int;
    if m.spec_is_capture() {
        assert(s[m.spec_capture_square() as int] != s[j]);
    }
    if m.spec_piece() == Piece::King {
        assert(from == j);
        assert(t[to] == Some(king));
        assert forall|i: int| 0 <= i < 64 && #[trigger] t[i] == Some(king) implies i == to by {
            if i != to {
                assert(s[i] == Some(king));
            }
        }
    } else {
        assert(from != j);
        assert(to != j);
        assert(t[j] == Some(king));
        assert forall|i: int| 0 <= i < 64 && #[trigger] t[i] == Some(king) implies i == j by {
            if i != j {
                assert(s[i] == Some(king));
            }
        }
    }
}

/// A word whose set bits are the squares of `color`'s king in `t` has one set bit exactly
/// when one square holds that king.
pub proof fn lemma_king_bits(x: u64, t: Seq<Option<ColoredPiece>>, color: Color)
    requires
        t.len() == 64,
        forall|i: u64| i < 64 ==> (#[trigger] crate::bits::bit_set(x, i) <==> t[i as int] == Some(ColoredPiece { piece: Piece::King, color })),
    ensures
        popcount(x) == 1 <==> single_king(t, color),
{
    let king = ColoredPiece { piece: Piece::King, color };
    if popcount(x) == 1 {
        crate::bits::lemma_popcount_one(x);
        let j = vstd::std_specs::bits::u64_trailing_zeros(x) as int;
        crate::bits::lemma_bit_single(j as u64, j as u64);
        assert(crate::bits::bit_set(x, j as u64));
        assert forall|i: int| 0 <= i < 64 && #[trigger] t[i] == Some(king) implies i == j by {
            assert(crate::bits::bit_set(x, i as u64));
            crate::bits::lemma_bit_single(j as u64, i as u64);
        }
    }
    if single_king(t, color) {
        let j = choose|j: int|
            0 <= j < 64 && t[j] == Some(king) && forall|i: int| 0 <= i < 64 && #[trigger] t[i] == Some(king) ==> i == j;
        assert forall|i: u64| i < 64 implies crate::bits::bit_set(x, i) == crate::bits::bit_set(crate::bits::single(j as u64), i) by {
            crate::bits::lemma_bit_single(j as u64, i);
            assert(crate::bits::bit_set(x, i) <==> t[i as int] == Some(king));
        }
        crate::bits::lemma_bits_ext(x, crate::bits::single(j as u64));
        crate::bits::lemma_popcount_single(j as u64);
    }
}

/// Square the castling rook leaves when the king moves to `to`.
fn rook_start(to: u8) -> (r: u8)
    ensures
        r == rook_from(to as int),
{
    if to == 6 {
        7
    } else if to == 2 {
        0
    } else if to == 62 {
        63
    } else {
        56
    }
}

/// Square the castling rook goes to when the king moves to `to`.
fn rook_target(to: u8) -> (r: u8)
    ensures
        r == rook_to(to as int),
{
    if to == 6 {
        5
    } else if to == 2 {
        3
    } else if to == 62 {
        61
    } else {
        59
    }
}

/// Whether `square` holds `color`'s `piece`.
fn holds(board: &Board, square: Square, piece: Piece, color: Color) -> (r: bool)
    requires
        board.shaped(),
        square.wf(),
    ensures
        r == (board.pieces@[square.index as int] == Some(ColoredPiece { piece, color })),
{
    match board.get_piece_type(square) {
        Some(colored_piece) => colored_piece.piece == piece && colored_piece.color == color,
        None => false,
    }
}

/// `boards` are the positions that playing `moves`, read from `texts`, goes through: each
/// move is read from its text against the position before it, and made there.
pub open spec fn plays(boards: Seq<Board>, moves: Seq<Move>, texts: Seq<Seq<char>>) -> bool {
    &&& boards.len() == moves.len() + 1
    &&& moves.len() <= texts.len()
    &&& forall|k: int|
        0 <= k < moves.len() ==> parsed_move(boards[k], texts[k], #[trigger] moves[k]) && boards[k + 1].made_from(
            boards[k],
            moves[k],
        )
}

/// Reading the move text `t` against `board` fails: it is shorter than four bytes, one of its
/// two squares is not a letter and a digit, nothing stands on its first square, or it has five
/// bytes and the fifth names no piece.
pub open spec fn move_text_rejected(board: Board, t: Seq<char>) -> bool {
    ||| crate::generation::parse::byte_len(t) < 4
    ||| !crate::generation::parse::square_like(crate::generation::parse::first_cut(t))
    ||| !crate::generation::parse::square_like(crate::generation::parse::second_cut(t))
    ||| board.pieces@[crate::generation::parse::name_index(crate::generation::parse::first_cut(t))] is None
    ||| (crate::generation::parse::byte_len(t) == 5 && !crate::board::piece::is_fen_char(t[4]))
}

/// Why playing the move text `t` on `board` stopped with `e`: reading it failed, or the move
/// read cannot be made there.
pub open spec fn make_failure(board: Board, t: Seq<char>, e: super::error::BoardError) -> bool {
    match e {
        super::error::BoardError::MoveError(_) => move_text_rejected(board, t),
        super::error::BoardError::PieceNotFound(_) => !move_text_rejected(board, t) && exists|m: Move|
            crate::generation::parse::parsed_move(board, t, m) && !board.can_make(m),
        _ => false,
    }
}

impl<'a> Board<'a> {
    /// Whether `m` can be made on this board (see `can_make`).
    pub fn can_make_move(&self, mov: &Move) -> (r: bool)
        requires
            self.consistent(),
        ensures
            r == self.can_make(*mov),
    {
        let m = *mov;
        let active = self.gamestate.active;
        let ghost s = self.pieces@;
        proof {
            crate::generation::mov::lemma_masks(m.0);
            crate::board::color::lemma_opposite_involutive(active);
        }
        if (m.0 >> 12u64) & 7 == 7 || (m.0 >> 17u64) & 7 == 7 || (m.0 >> 21u64) & 7 == 7 {
            return false;
        }
        let piece = m.piece();
        if piece == Piece::NoPiece {
            return false;
        }
        let from = m.from();
        let to = m.to();
        if from.index == to.index {
            return false;
        }
        if !holds(self, from, piece, active) {
            return false;
        }
        let capture = m.is_capture();
        let captured = m.captured_piece();
        let capture_square = m.capture_square();
        if capture {
            if captured == Piece::NoPiece || !holds(self, capture_square, captured, active.not()) {
                return false;
            }
        }
        let to_free = (capture && capture_square.index == to.index) || self.get_piece_type(to).is_none();
        if !to_free {
            return false;
        }
        let promotion = m.is_promotion();
        if m.is_castling() {
            if capture || promotion {
                return false;
            }
            let t = to.index;
            if !(t == 2 || t == 6 || t == 58 || t == 62) {
                return false;
            }
            let rf = rook_start(t);
            let rt = rook_target(t);
            if from.index == rf || from.index == rt {
                return false;
            }
            if !holds(self, Square::by_index(rf), Piece::Rook, active) || self.get_piece_type(Square::by_index(rt)).is_some() {
                return false;
            }
        }
        if piece != Piece::Pawn && self.gamestate.halfmoves == 65535 {
            return false;
        }
        if active == Color::Black && self.gamestate.fullmoves == 65535 {
            return false;
        }
        assert(move_fits(s, m, active));

        let kings = self.get_piece_board(active, Piece::King).0;
        let landing = if promotion { m.promoted_piece() } else { piece };
        let mut after = kings;
        if piece == Piece::King {
            after = after & !Bitboard::from_square(from).0;
        }
        let ghost lifted = after;
        if landing == Piece::King {
            after = after | Bitboard::from_square(to).0;
        }
        proof {
            let t = after_move(s, m, active);
            let king = ColoredPiece { piece: Piece::King, color: active };
            assert forall|i: u64| i < 64 implies (#[trigger] crate::bits::bit_set(after, i) <==> t[i as int] == Some(king)) by {
                crate::board::lemma_piece_board_has(*self, active, Piece::King, i as int);
                crate::bits::lemma_bit_single(from.index as u64, i);
                crate::bits::lemma_bit_single(to.index as u64, i);
                crate::bits::lemma_bit_and(kings, !crate::bits::single(from.index as u64), i);
                crate::bits::lemma_bit_not(crate::bits::single(from.index as u64), i);
                crate::bits::lemma_bit_or(lifted, crate::bits::single(to.index as u64), i);
                if m.spec_is_capture() {
                    assert(s[m.spec_capture_square() as int] != s[from.index as int]);
                }
            }
            lemma_king_bits(after, t, active);
        }
        Bitboard(after).count_ones() == 1
    }

    /// Plays the moves given in coordinate notation one after the other, and returns them.
    /// Reading a move fails with its error; a move that cannot be made on the board it is read
    /// against (see `can_make`) stops with `PieceNotFound`. Either way the moves read before
    /// stay made.
    pub fn make_moves(&mut self, input: &Vec<String>) -> (r: Result<Vec<Move>, super::error::BoardError>)
        requires
            old(self).consistent(),
            old(self).gamestate.en_passant matches Some(ep) ==> ep.to_capture.wf(),
            forall|i: int| 0 <= i < input@.len() ==> crate::generation::parse::cuts_clean(#[trigger] input@[i]@),
            forall|i: int| 0 <= i < input@.len() ==> !crate::generation::parse::move_text_off_board(#[trigger] input@[i]@),
        ensures
            final(self).consistent(),
            final(self).hasher == old(self).hasher,
            final(self).history@.len() >= old(self).history@.len(),
            final(self).history@.subrange(0, old(self).history@.len() as int) == old(self).history@,
            exists|boards: Seq<Board<'a>>, ms: Seq<Move>|
                #[trigger] plays(boards, ms, crate::text::string_views(input@)) && boards[0] == *old(self) && boards.last()
                    == *final(self) && (r matches Ok(moves) ==> moves@ == ms && ms.len() == input@.len()) && (r is Err
                    ==> ms.len() < input@.len() && make_failure(
                    boards.last(),
                    crate::text::string_views(input@)[ms.len() as int],
                    r->Err_0,
                )),
            r matches Ok(moves) ==> moves@.len() == input@.len() && final(self).history@.len() == old(self).history@.len()
                + input@.len(),
    {
        let mut moves: Vec<Move> = Vec::new();
        let ghost texts = crate::text::string_views(input@);
        let ghost mut boards: Seq<Board<'a>> = seq![*self];

        let mut i: usize = 0;
        while i < input.len()
            invariant
                i <= input.len(),
                moves@.len() == i,
                self.consistent(),
                self.hasher == old(self).hasher,
                self.gamestate.en_passant matches Some(ep) ==> ep.to_capture.wf(),
                self.history@.len() == old(self).history@.len() + i,
                self.history@.subrange(0, old(self).history@.len() as int) == old(self).history@,
                forall|j: int| 0 <= j < input@.len() ==> crate::generation::parse::cuts_clean(#[trigger] input@[j]@),
                forall|j: int| 0 <= j < input@.len() ==> !crate::generation::parse::move_text_off_board(#[trigger] input@[j]@),
                texts == crate::text::string_views(input@),
                plays(boards, moves@, texts),
                boards[0] == *old(self),
                boards.last() == *self,
            decreases input.len() - i,
        {
            let text = &input[i];
            proof {
                assert(crate::generation::parse::cuts_clean(input@[i as int]@));
                assert(!crate::generation::parse::move_text_off_board(input@[i as int]@));
                assert(texts[i as int] == input@[i as int]@);
            }
            let mov = match Move::parse(self, text.as_str()) {
                Ok(mov) => mov,
                Err(e) => {
                    return Err(super::error::BoardError::MoveError(e));
                },
            };
            let ghost before_moves = moves@;
            moves.push(mov);

            if !self.can_make_move(&mov) {
                proof {
                    assert(plays(boards, before_moves, texts));
                }
                return Err(super::error::BoardError::PieceNotFound(super::error::PieceNotFound));
            }
            let ghost before = self.history@;
            let ghost b0 = *self;
            self.make(&mov);
            proof {
                crate::generation::mov::lemma_masks(mov.0);
                assert(self.history@.subrange(0, old(self).history@.len() as int) =~= before.subrange(
                    0,
                    old(self).history@.len() as int,
                ));
                let nb = boards.push(*self);
                assert(nb[i as int] == b0);
                assert(parsed_move(b0, texts[i as int], mov));
                assert forall|k: int| 0 <= k < moves@.len() implies parsed_move(nb[k], texts[k], #[trigger] moves@[k])
                    && nb[k + 1].made_from(nb[k], moves@[k]) by {
                    if k < i {
                        assert(moves@[k] == before_moves[k]);
                        assert(nb[k] == boards[k]);
                        assert(nb[k + 1] == boards[k + 1]);
                    }
                }
                boards = nb;
            }
            i = i + 1;
        }

        Ok(moves)
    }

    /// The moves the generator finds for the side to move.
    pub fn get_legal_moves(&self) -> (r: Vec<Move>)
        requires
            self.can_generate(),
        ensures
            forall|k: int| 0 <= k < r@.len() ==> crate::generation::new_gen::generated_ok(*self, #[trigger] r@[k]),
            crate::generation::listing::moves_listed(*self, r@),
            r@.no_duplicates(),
    {
        let generator = crate::generation::new_gen::NewMoveGenerator::new(self);
        generator.moves
    }
}

} // verus!
