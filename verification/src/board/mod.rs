pub mod color;
pub mod error;
pub mod fen;
pub mod fen_check;
pub mod fen_law;
pub mod attacks;
pub mod moves;
pub mod picture;
pub mod piece;
pub mod start;
pub mod zobrist;

use vstd::prelude::*;

use crate::bitboard::square::Square;
use crate::bitboard::Bitboard;
use crate::bits::{lemma_bit_xor, lemma_bit_single, lemma_xor_drift, lemma_xor_facts, single};

use self::color::Color;
use self::piece::{ColoredPiece, Piece, PIECE_COUNT};
use self::zobrist::{ZobristHash, ZobristHasher};

verus! {

/// The pieces pinned to the king of the side to move, and the pieces giving check.
#[derive(Debug, Clone, Copy, PartialEq, Eq, Structural)]
pub struct PinCheckState {
    pub pinned: Bitboard,
    pub checkers: Bitboard,
}

impl PinCheckState {
    pub fn new(pinned: Bitboard, checkers: Bitboard) -> (r: Self)
        ensures
            r.pinned == pinned,
            r.checkers == checkers,
    {
        Self { pinned, checkers }
    }
}

/// After a double pawn push: the square a capturing pawn moves to (`to_move`, the square the
/// pawn passed over) and the square of the pawn that is taken (`to_capture`).
#[derive(Debug, Clone, Copy, PartialEq, Eq, Structural)]
pub struct EnPassant {
    pub to_move: Square,
    pub to_capture: Square,
}

impl EnPassant {
    pub fn new(to_move: Square, to_capture: Square) -> (r: Self)
        ensures
            r.to_move == to_move,
            r.to_capture == to_capture,
    {
        Self { to_move, to_capture }
    }
}

/// Everything about a position besides where the pieces stand.
#[derive(Debug, Clone, Copy, PartialEq, Eq, Structural)]
pub struct GameState {
    pub hash: ZobristHash,
    pub active: Color,
    pub halfmoves: u16,
    pub fullmoves: u16,
    pub en_passant: Option<EnPassant>,
    pub white_kingside: bool,
    pub white_queenside: bool,
    pub black_kingside: bool,
    pub black_queenside: bool,
    pub pinned: Bitboard,
    pub checkers: Bitboard,
}

impl GameState {
    /// White to move, no castling rights, no en passant square, counters at zero.
    pub open spec fn initial() -> GameState {
        GameState {
            hash: ZobristHash(0),
            active: Color::White,
            halfmoves: 0,
            fullmoves: 0,
            en_passant: None,
            white_kingside: false,
            white_queenside: false,
            black_kingside: false,
            black_queenside: false,
            pinned: Bitboard(0),
            checkers: Bitboard(0),
        }
    }

    /// The same state with another hash.
    pub open spec fn with_hash(self, hash: u64) -> GameState {
        GameState { hash: ZobristHash(hash), ..self }
    }

    /// White to move, no castling rights, no en passant square, counters at zero.
    pub fn default() -> (r: Self)
        ensures
            r == GameState::initial(),
    {
        Self {
            hash: ZobristHash(0),
            active: Color::White,
            black_kingside: false,
            white_kingside: false,
            black_queenside: false,
            white_queenside: false,
            en_passant: None,
            halfmoves: 0,
            fullmoves: 0,
            pinned: Bitboard(0),
            checkers: Bitboard(0),
        }
    }
}

pub const BOARD_SIZE: usize = 64;

pub const STARTPOS_FEN: &'static str = "rnbqkbnr/pppppppp/8/8/8/8/PPPPPPPP/RNBQKBNR w KQkq - 0 1";

/// Position of the bitboard of `color`'s `piece` in `Board::bitboards`.
pub open spec fn bb_index(color: Color, piece: Piece) -> int {
    (color.spec_index() * 6 + piece.spec_index()) as int
}

/// What the hash gives to one square.
pub open spec fn square_term(h: ZobristHasher, p: Option<ColoredPiece>, j: int) -> u64 {
    match p {
        Some(cp) => h.piece_key(cp.piece, cp.color, j),
        None => 0,
    }
}

/// Hash of the first `n` squares.
pub open spec fn pieces_hash(h: ZobristHasher, pieces: Seq<Option<ColoredPiece>>, n: int) -> u64
    decreases n,
{
    if n <= 0 {
        0
    } else {
        pieces_hash(h, pieces, n - 1) ^ square_term(h, pieces[n - 1], n - 1)
    }
}

/// Hash of the side to move and the castling rights.
pub open spec fn rights_hash(h: ZobristHasher, gs: GameState) -> u64 {
    (((if gs.active == Color::Black { h.side.0 } else { 0u64 }) ^ (if gs.white_kingside {
        h.castling@[0].0
    } else {
        0u64
    })) ^ (if gs.white_queenside { h.castling@[1].0 } else { 0u64 })) ^ (if gs.black_kingside {
        h.castling@[2].0
    } else {
        0u64
    }) ^ (if gs.black_queenside { h.castling@[3].0 } else { 0u64 })
}

/// Hash of the en passant file, if there is an en passant square.
pub open spec fn ep_hash(h: ZobristHasher, gs: GameState) -> u64 {
    match gs.en_passant {
        Some(ep) => h.en_passant_key(ep.to_capture.spec_file()),
        None => 0u64,
    }
}

/// Hash of the side to move, the castling rights and the en passant file.
pub open spec fn state_hash(h: ZobristHasher, gs: GameState) -> u64 {
    rights_hash(h, gs) ^ ep_hash(h, gs)
}

/// The hash of a position: every piece's key, then the keys of the game state.
pub open spec fn full_hash(h: ZobristHasher, pieces: Seq<Option<ColoredPiece>>, gs: GameState) -> u64 {
    pieces_hash(h, pieces, 64) ^ state_hash(h, gs)
}

/// The contents of square `sq` after toggling `cp` there: emptied if it was occupied,
/// filled with `cp` otherwise.
pub open spec fn toggle_seq(s: Seq<Option<ColoredPiece>>, sq: int, cp: ColoredPiece) -> Seq<Option<ColoredPiece>> {
    s.update(sq, if s[sq] is Some { None } else { Some(cp) })
}

/// Toggling `cp` on `sq` keeps the board consistent: the square is empty or holds `cp`.
pub open spec fn toggle_ok(s: Seq<Option<ColoredPiece>>, sq: int, cp: ColoredPiece) -> bool {
    s[sq] is None || s[sq] == Some(cp)
}

/// Changing one square changes the hash of the squares below `n` by the two terms.
pub proof fn lemma_pieces_hash_update(h: ZobristHasher, s: Seq<Option<ColoredPiece>>, k: int, v: Option<ColoredPiece>, n: int)
    requires
        0 <= k < s.len(),
        n <= s.len(),
    ensures
        pieces_hash(h, s.update(k, v), n) == (if 0 <= k < n {
            pieces_hash(h, s, n) ^ (square_term(h, s[k], k) ^ square_term(h, v, k))
        } else {
            pieces_hash(h, s, n)
        }),
    decreases n,
{
    let t = s.update(k, v);
    if n <= 0 {
    } else {
        lemma_pieces_hash_update(h, s, k, v, n - 1);
        let a = pieces_hash(h, s, n - 1);
        let b = square_term(h, s[n - 1], n - 1);
        if k == n - 1 {
            let x = square_term(h, s[k], k);
            let y = square_term(h, v, k);
            assert(pieces_hash(h, t, n) == a ^ y);
            lemma_xor_facts(a, x, x ^ y);
            lemma_xor_facts(x, x, y);
            lemma_xor_facts(0, y, y);
            lemma_xor_facts(y, 0, 0);
        } else if 0 <= k < n - 1 {
            let x = square_term(h, s[k], k);
            let y = square_term(h, v, k);
            lemma_xor_facts(a, x ^ y, b);
            lemma_xor_facts(x ^ y, b, b);
            lemma_xor_facts(a, b, x ^ y);
        }
    }
}

/// The bitboards agree with the piece on each square: each piece kind's bitboard, each side's
/// squares and the occupied squares.
#[verifier::opaque]
pub open spec fn squares_agree(bitboards: Seq<Bitboard>, pieces: Seq<Option<ColoredPiece>>, white: Bitboard, black: Bitboard, occupied: Bitboard) -> bool {
    &&& forall|j: int| 0 <= j < 64 ==> (#[trigger] pieces[j] matches Some(cp) ==> cp.piece.is_real())
    &&& forall|c: Color, p: Piece, j: int| p.is_real() && 0 <= j < 64 ==> (#[trigger] bitboards[bb_index(c, p)].has(j) <==> pieces[j] == Some(ColoredPiece { piece: p, color: c }))
    &&& forall|j: int| 0 <= j < 64 ==> (#[trigger] white.has(j) <==> (pieces[j] matches Some(cp) && cp.color == Color::White))
    &&& forall|j: int| 0 <= j < 64 ==> (#[trigger] black.has(j) <==> (pieces[j] matches Some(cp) && cp.color == Color::Black))
    &&& forall|j: int| 0 <= j < 64 ==> (#[trigger] occupied.has(j) <==> pieces[j] is Some)
}

/// The board: one bitboard per colour and piece kind, the piece on each square, the squares
/// of each side, the occupied squares, the hash keys, the game state and the game states of
/// the moves made so far.
#[derive(Debug, Clone)]
pub struct Board<'a> {
    pub bitboards: Vec<Bitboard>,
    pub pieces: Vec<Option<ColoredPiece>>,
    pub white: Bitboard,
    pub black: Bitboard,
    pub occupied: Bitboard,
    pub hasher: &'a ZobristHasher,
    pub gamestate: GameState,
    pub history: Vec<GameState>,
}

impl<'a> Board<'a> {
    /// The tables have their sizes and the hasher its keys.
    pub open spec fn shaped(self) -> bool {
        &&& self.bitboards.len() == 12
        &&& self.pieces.len() == 64
        &&& self.hasher.wf()
    }

    /// The tables have their sizes and the bitboards agree with the piece on each square.
    pub open spec fn consistent(self) -> bool {
        self.shaped() && squares_agree(self.bitboards@, self.pieces@, self.white, self.black, self.occupied)
    }

    /// Every square holds a real piece kind or nothing.
    pub open spec fn pieces_real(self) -> bool {
        forall|j: int| 0 <= j < 64 ==> (#[trigger] self.pieces@[j] matches Some(cp) ==> cp.piece.is_real())
    }

    /// The stored hash is the hash of the position.
    pub open spec fn hash_ok(self) -> bool {
        self.gamestate.hash.0 == full_hash(*self.hasher, self.pieces@, self.gamestate)
    }

    /// How far the stored hash is from the hash of the position: zero exactly when the stored
    /// hash is right.
    pub open spec fn drift(self) -> u64 {
        self.gamestate.hash.0 ^ full_hash(*self.hasher, self.pieces@, self.gamestate)
    }

    /// The two boards hold the same position, game state, history and hasher.
    pub open spec fn same_position(self, other: Board) -> bool {
        &&& self.pieces@ == other.pieces@
        &&& self.bitboards@ == other.bitboards@
        &&& self.white == other.white
        &&& self.black == other.black
        &&& self.occupied == other.occupied
        &&& self.gamestate == other.gamestate
        &&& self.history@ == other.history@
        &&& self.hasher == other.hasher
    }

    pub open spec fn piece_board(self, color: Color, piece: Piece) -> Bitboard {
        self.bitboards@[bb_index(color, piece)]
    }

    /// Puts `color`'s `piece` on `square` if the square is empty, and takes whatever stands
    /// there away otherwise: the piece's bitboard, the side's squares and the occupied squares
    /// flip at `square`, and the hash changes by the piece's key there.
    pub fn toggle(&mut self, color: Color, piece: Piece, square: Square)
        requires
            old(self).shaped(),
            piece.is_real(),
            square.wf(),
        ensures
            final(self).shaped(),
            final(self).hasher == old(self).hasher,
            final(self).history@ == old(self).history@,
            final(self).bitboards@ == old(self).bitboards@.update(
                bb_index(color, piece),
                flip(old(self).bitboards@[bb_index(color, piece)], square.index as int),
            ),
            final(self).pieces@ == toggle_seq(old(self).pieces@, square.index as int, ColoredPiece { piece, color }),
            final(self).white == (if color == Color::White { flip(old(self).white, square.index as int) } else { old(self).white }),
            final(self).black == (if color == Color::Black { flip(old(self).black, square.index as int) } else { old(self).black }),
            final(self).occupied == flip(old(self).occupied, square.index as int),
            final(self).gamestate == old(self).gamestate.with_hash(
                old(self).gamestate.hash.0 ^ old(self).hasher.piece_key(piece, color, square.index as int),
            ),
            old(self).consistent() && toggle_ok(old(self).pieces@, square.index as int, ColoredPiece { piece, color })
                ==> final(self).consistent(),
            toggle_ok(old(self).pieces@, square.index as int, ColoredPiece { piece, color })
                ==> final(self).drift() == old(self).drift(),
    {
        let ghost before = *self;
        let color_index = color.index();
        let piece_index = piece.index();
        let index = color_index * PIECE_COUNT + piece_index;
        let mask = Bitboard::from_square(square);
        let bb = self.bitboards[index];
        self.bitboards[index] = bb ^ mask;

        if self.get_piece_type(square).is_some() {
            self.set_piece_type(square, None);
        } else {
            self.set_piece_type(square, Some(ColoredPiece::new(piece, color)));
        }

        match color {
            Color::White => self.white = self.white ^ mask,
            Color::Black => self.black = self.black ^ mask,
        }

        self.occupied = self.occupied ^ mask;

        let key = self.hasher.piece_hash(piece, color, square);
        self.gamestate.hash = self.gamestate.hash ^ key;
        proof {
            let cp = ColoredPiece { piece, color };
            assert(self.pieces@ == toggle_seq(before.pieces@, square.index as int, cp));
            if before.consistent() && toggle_ok(before.pieces@, square.index as int, cp) {
                lemma_toggle_consistent(before, *self, color, piece, square.index as int);
            }
            if toggle_ok(before.pieces@, square.index as int, cp) {
                lemma_toggle_hash(*before.hasher, before.pieces@, before.gamestate, square.index as int, cp);
                let k = before.hasher.piece_key(piece, color, square.index as int);
                assert(state_hash(*self.hasher, self.gamestate) == state_hash(*before.hasher, before.gamestate));
                assert(full_hash(*self.hasher, self.pieces@, self.gamestate) == full_hash(*before.hasher, before.pieces@, before.gamestate) ^ k);
                lemma_xor_drift(before.gamestate.hash.0, full_hash(*before.hasher, before.pieces@, before.gamestate), 0, k);
            }
        }
    }

    /// The piece on `square`, if any.
    pub fn get_piece_type(&self, square: Square) -> (r: Option<ColoredPiece>)
        requires
            self.shaped(),
            square.wf(),
        ensures
            r == self.pieces@[square.index as int],
    {
        self.pieces[square.index as usize]
    }

    /// Records `piece` as what stands on `square`, leaving the bitboards as they are.
    pub fn set_piece_type(&mut self, square: Square, piece: Option<ColoredPiece>)
        requires
            old(self).shaped(),
            square.wf(),
        ensures
            *final(self) == (Board { pieces: final(self).pieces, ..*old(self) }),
            final(self).pieces@ == old(self).pieces@.update(square.index as int, piece),
    {
        self.pieces[square.index as usize] = piece;
    }

    /// The stored hash of the position.
    pub fn hash(&self) -> (r: ZobristHash)
        ensures
            r == self.gamestate.hash,
    {
        self.gamestate.hash
    }

    /// The keys the board hashes with.
    pub fn hasher(&self) -> (r: &'a ZobristHasher)
        ensures
            r == self.hasher,
    {
        self.hasher
    }

    /// A board with no pieces, White to move and no castling rights.
    pub fn empty(hasher: &'a ZobristHasher) -> (r: Board<'a>)
        requires
            hasher.wf(),
        ensures
            r.consistent(),
            r.hash_ok(),
            r.hasher == hasher,
            forall|j: int| 0 <= j < 64 ==> r.pieces@[j] is None,
            r.gamestate == GameState::initial(),
            r.history@.len() == 0,
    {
        let mut bitboards: Vec<Bitboard> = Vec::new();
        let mut n: usize = 0;
        while n < 12
            invariant
                n <= 12,
                bitboards.len() == n,
                forall|k: int| 0 <= k < n ==> (#[trigger] bitboards@[k]).0 == 0,
            decreases 12 - n,
        {
            bitboards.push(Bitboard(0));
            n = n + 1;
        }
        let mut pieces: Vec<Option<ColoredPiece>> = Vec::new();
        let mut n: usize = 0;
        while n < 64
            invariant
                n <= 64,
                pieces.len() == n,
                forall|k: int| 0 <= k < n ==> (#[trigger] pieces@[k]) is None,
            decreases 64 - n,
        {
            pieces.push(None);
            n = n + 1;
        }
        let board = Board {
            bitboards,
            pieces,
            occupied: Bitboard(0),
            white: Bitboard(0),
            black: Bitboard(0),
            hasher,
            gamestate: GameState::default(),
            history: Vec::new(),
        };
        proof {
            reveal(squares_agree);
            assert forall|j: int| 0 <= j < 64 implies !Bitboard(0).has(j) by {
                crate::bits::lemma_bit_zero(j as u64);
            }
            lemma_pieces_hash_empty(*hasher, board.pieces@, 64);
            lemma_xor_facts(0, 0, 0);
        }
        board
    }
}

/// `b` with the square `sq` added if it was missing and removed if it was there.
pub open spec fn flip(b: Bitboard, sq: int) -> Bitboard {
    Bitboard(b.0 ^ single(sq as u64))
}

/// Flipping a square changes membership of that square only.
pub proof fn lemma_flip(b: Bitboard, sq: int)
    requires
        0 <= sq < 64,
    ensures
        forall|j: int| #[trigger] flip(b, sq).has(j) == (b.has(j) != (j == sq)),
{
    assert forall|j: int| #[trigger] flip(b, sq).has(j) == (b.has(j) != (j == sq)) by {
        if 0 <= j < 64 {
            lemma_bit_xor(b.0, single(sq as u64), j as u64);
            lemma_bit_single(sq as u64, j as u64);
        }
    }
}

/// Distinct colours and real piece kinds have distinct bitboards.
pub proof fn lemma_bb_index(c: Color, p: Piece, d: Color, q: Piece)
    requires
        p.is_real(),
        q.is_real(),
    ensures
        0 <= bb_index(c, p) < 12,
        bb_index(c, p) == bb_index(d, q) <==> (c == d && p == q),
{
}

/// Toggling a piece on a square where it may be toggled keeps the bitboards in agreement with
/// the squares.
pub proof fn lemma_toggle_consistent(a: Board, b: Board, color: Color, piece: Piece, sq: int)
    requires
        a.consistent(),
        b.shaped(),
        piece.is_real(),
        0 <= sq < 64,
        toggle_ok(a.pieces@, sq, ColoredPiece { piece, color }),
        b.bitboards@ == a.bitboards@.update(bb_index(color, piece), flip(a.bitboards@[bb_index(color, piece)], sq)),
        b.pieces@ == toggle_seq(a.pieces@, sq, ColoredPiece { piece, color }),
        b.white == (if color == Color::White { flip(a.white, sq) } else { a.white }),
        b.black == (if color == Color::Black { flip(a.black, sq) } else { a.black }),
        b.occupied == flip(a.occupied, sq),
    ensures
        b.consistent(),
{
    reveal(squares_agree);
    let cp = ColoredPiece { piece, color };
    lemma_flip(a.bitboards@[bb_index(color, piece)], sq);
    lemma_flip(a.white, sq);
    lemma_flip(a.black, sq);
    lemma_flip(a.occupied, sq);
    assert forall|c: Color, p: Piece, j: int| p.is_real() && 0 <= j < 64 implies (#[trigger] b.bitboards@[bb_index(c, p)].has(j) <==> b.pieces@[j] == Some(ColoredPiece { piece: p, color: c })) by {
        lemma_bb_index(c, p, color, piece);
        assert(a.bitboards@[bb_index(c, p)].has(j) <==> a.pieces@[j] == Some(ColoredPiece { piece: p, color: c }));
        assert(a.bitboards@[bb_index(color, piece)].has(sq) <==> a.pieces@[sq] == Some(cp));
    }
    assert forall|j: int| 0 <= j < 64 implies (#[trigger] b.white.has(j) <==> (b.pieces@[j] matches Some(x) && x.color == Color::White)) by {
        assert(a.white.has(j) <==> (a.pieces@[j] matches Some(x) && x.color == Color::White));
        assert(a.white.has(sq) <==> (a.pieces@[sq] matches Some(x) && x.color == Color::White));
    }
    assert forall|j: int| 0 <= j < 64 implies (#[trigger] b.black.has(j) <==> (b.pieces@[j] matches Some(x) && x.color == Color::Black)) by {
        assert(a.black.has(j) <==> (a.pieces@[j] matches Some(x) && x.color == Color::Black));
        assert(a.black.has(sq) <==> (a.pieces@[sq] matches Some(x) && x.color == Color::Black));
    }
    assert forall|j: int| 0 <= j < 64 implies (#[trigger] b.occupied.has(j) <==> b.pieces@[j] is Some) by {
        assert(a.occupied.has(j) <==> a.pieces@[j] is Some);
        assert(a.occupied.has(sq) <==> a.pieces@[sq] is Some);
    }
    assert forall|j: int| 0 <= j < 64 implies (#[trigger] b.pieces@[j] matches Some(x) ==> x.piece.is_real()) by {
        assert(a.pieces@[j] matches Some(x) ==> x.piece.is_real());
    }
}

/// Toggling a piece on a square where it may be toggled changes the hash of the position by
/// that piece's key on that square.
pub proof fn lemma_toggle_hash(h: ZobristHasher, s: Seq<Option<ColoredPiece>>, gs: GameState, sq: int, cp: ColoredPiece)
    requires
        s.len() == 64,
        0 <= sq < 64,
        toggle_ok(s, sq, cp),
    ensures
        full_hash(h, toggle_seq(s, sq, cp), gs) == full_hash(h, s, gs) ^ h.piece_key(cp.piece, cp.color, sq),
{
    let v = if s[sq] is Some { None } else { Some(cp) };
    lemma_pieces_hash_update(h, s, sq, v, 64);
    let k = h.piece_key(cp.piece, cp.color, sq);
    let a = pieces_hash(h, s, 64);
    let st = state_hash(h, gs);
    if s[sq] is Some {
        assert(square_term(h, s[sq], sq) == k);
        assert(square_term(h, v, sq) == 0);
        lemma_xor_facts(k, 0, 0);
    } else {
        assert(square_term(h, s[sq], sq) == 0);
        assert(square_term(h, v, sq) == k);
        lemma_xor_facts(0, k, 0);
        lemma_xor_facts(k, 0, 0);
    }
    lemma_xor_facts(a, k, st);
    lemma_xor_facts(k, st, 0);
    lemma_xor_facts(a, st, k);
}

/// On a consistent board, a piece kind's bitboard holds exactly the squares of that piece.
pub proof fn lemma_piece_board_has(b: Board, color: Color, piece: Piece, j: int)
    requires
        b.consistent(),
        piece.is_real(),
        0 <= j < 64,
    ensures
        b.piece_board(color, piece).has(j) <==> b.pieces@[j] == Some(ColoredPiece { piece, color }),
{
    reveal(squares_agree);
}

/// A consistent board holds only real piece kinds.
pub proof fn lemma_consistent_real(b: Board)
    requires
        b.consistent(),
    ensures
        b.pieces_real(),
{
    reveal(squares_agree);
}

/// The hash of empty squares is zero.
pub proof fn lemma_pieces_hash_empty(h: ZobristHasher, s: Seq<Option<ColoredPiece>>, n: int)
    requires
        n <= s.len(),
        forall|j: int| 0 <= j < n ==> s[j] is None,
    ensures
        pieces_hash(h, s, n) == 0,
    decreases n,
{
    if n > 0 {
        lemma_pieces_hash_empty(h, s, n - 1);
        lemma_xor_facts(0, 0, 0);
    }
}

} // verus!
