use vstd::prelude::*;

use crate::bitboard::square::Square;
use crate::bitboard::Bitboard;
use crate::text::{
    chars_to_string, digit_value, digits_value, is_digit, is_digit_spec, is_unsigned_text, push_decimal, decimal, digit_char, parse_u16, split_chars,
    split_spec, str_to_chars, unsigned_digits, views,
};

use super::color::Color;
use super::error::{
    BoardError, ColoredPieceError, InvalidEnPassant, InvalidFenPiece, NotEnoughParts, WrongActiveColor,
    WrongCastlingAvailibility,
};
use super::piece::{fen_char, is_fen_char, ColoredPiece, Piece};
use super::zobrist::{ZobristHash, ZobristHasher};
use super::{full_hash, toggle_seq, Board, EnPassant, GameState};

verus! {

/// The FEN text of one rank from file `file` on, with `empty` empty squares already counted:
/// runs of empty squares become their number, pieces their letter.
pub open spec fn fen_rank(s: Seq<Option<ColoredPiece>>, rank: int, file: int, empty: nat) -> Seq<char>
    decreases 8 - file,
{
    if file >= 8 {
        if empty > 0 {
            seq![digit_char(empty)]
        } else {
            seq![]
        }
    } else {
        match s[rank * 8 + file] {
            Some(cp) => (if empty > 0 {
                seq![digit_char(empty)]
            } else {
                seq![]
            }) + seq![fen_char(cp.piece, cp.color)] + fen_rank(s, rank, file + 1, 0),
            None => fen_rank(s, rank, file + 1, empty + 1),
        }
    }
}

/// The FEN text of the ranks from the eighth down to `rank`, each followed by a slash except
/// the first rank.
pub open spec fn fen_rows(s: Seq<Option<ColoredPiece>>, rank: int) -> Seq<char>
    decreases 8 - rank,
{
    if rank >= 8 {
        seq![]
    } else {
        fen_rows(s, rank + 1) + fen_rank(s, rank, 0, 0) + (if rank > 0 {
            seq!['/']
        } else {
            seq![]
        })
    }
}

/// The castling field: `K`, `Q`, `k`, `q` for the rights held, `-` for none.
pub open spec fn fen_castling(gs: GameState) -> Seq<char> {
    let t = (if gs.white_kingside { seq!['K'] } else { seq![] }) + (if gs.white_queenside {
        seq!['Q']
    } else {
        seq![]
    }) + (if gs.black_kingside { seq!['k'] } else { seq![] }) + (if gs.black_queenside {
        seq!['q']
    } else {
        seq![]
    });
    if t.len() == 0 {
        seq!['-']
    } else {
        t
    }
}

/// The name of a square, such as `e3`.
pub open spec fn square_name(sq: Square) -> Seq<char> {
    seq![('a' as u8 + sq.spec_file()) as char, ('1' as u8 + sq.spec_rank()) as char]
}

/// The FEN text of a position: the ranks from the eighth down, the side to move, the castling
/// rights, the en passant square (the square of the pawn that may be taken), the half-move
/// clock and the move number, separated by spaces.
pub open spec fn fen_text(s: Seq<Option<ColoredPiece>>, gs: GameState) -> Seq<char> {
    fen_rows(s, 0) + seq![' '] + seq![if gs.active == Color::White { 'w' } else { 'b' }] + seq![' ']
        + fen_castling(gs) + seq![' '] + (match gs.en_passant {
        Some(ep) => square_name(ep.to_capture),
        None => seq!['-'],
    }) + seq![' '] + decimal(gs.halfmoves as nat) + seq![' '] + decimal(gs.fullmoves as nat)
}

/// The piece a FEN letter stands for.
pub open spec fn piece_of_char(c: char) -> ColoredPiece {
    let color = if c == 'P' || c == 'N' || c == 'B' || c == 'R' || c == 'Q' || c == 'K' {
        Color::White
    } else {
        Color::Black
    };
    let piece = if c == 'P' || c == 'p' {
        Piece::Pawn
    } else if c == 'N' || c == 'n' {
        Piece::Knight
    } else if c == 'B' || c == 'b' {
        Piece::Bishop
    } else if c == 'R' || c == 'r' {
        Piece::Rook
    } else if c == 'Q' || c == 'q' {
        Piece::Queen
    } else {
        Piece::King
    };
    ColoredPiece { piece, color }
}

/// The board rank the `r`-th rank field of a FEN text describes (the first field is the
/// eighth rank); the field number is taken modulo 256.
pub open spec fn field_rank(r: nat) -> int {
    7 - (r % 256) as int
}

/// Reads one rank field of a FEN placement, the `r`-th, from file `f` on: digits skip empty
/// squares, piece letters put their piece on the next square (a piece already there is taken
/// off instead). Gives the squares and whether every letter found its square empty, or the
/// first character that is neither.
pub open spec fn scan_rank(s: Seq<Option<ColoredPiece>>, clean: bool, r: nat, chars: Seq<char>, f: nat) -> Result<(Seq<Option<ColoredPiece>>, bool), char>
    decreases chars.len(),
{
    if chars.len() == 0 {
        Ok((s, clean))
    } else {
        let c = chars[0];
        if is_digit_spec(c) {
            scan_rank(s, clean, r, chars.drop_first(), f + digit_value(c) as nat)
        } else if !is_fen_char(c) {
            Err(c)
        } else {
            let idx = field_rank(r) * 8 + f;
            scan_rank(toggle_seq(s, idx, piece_of_char(c)), clean && s[idx] is None, r, chars.drop_first(), f + 1)
        }
    }
}

/// Reading the rank field from file `f` on fails by running out of numbers or squares: the
/// file count passing 255, a letter in a field past the eighth, or a piece letter off the
/// board.
pub open spec fn rank_overflows(r: nat, chars: Seq<char>, f: nat) -> bool
    decreases chars.len(),
{
    if chars.len() == 0 {
        false
    } else {
        let c = chars[0];
        if is_digit_spec(c) {
            f + digit_value(c) > 255 || rank_overflows(r, chars.drop_first(), f + digit_value(c) as nat)
        } else if r % 256 > 7 {
            true
        } else if !is_fen_char(c) {
            false
        } else {
            field_rank(r) * 8 + f >= 64 || rank_overflows(r, chars.drop_first(), f + 1)
        }
    }
}

/// Reads the rank fields `ranks`, the first of which is the `r`-th.
pub open spec fn scan_ranks(s: Seq<Option<ColoredPiece>>, clean: bool, ranks: Seq<Seq<char>>, r: nat) -> Result<(Seq<Option<ColoredPiece>>, bool), char>
    decreases ranks.len(),
{
    if ranks.len() == 0 {
        Ok((s, clean))
    } else {
        match scan_rank(s, clean, r, ranks[0], 0) {
            Ok((s2, c2)) => scan_ranks(s2, c2, ranks.drop_first(), r + 1),
            Err(c) => Err(c),
        }
    }
}

/// Reading the rank fields `ranks` runs out of numbers or squares before it fails otherwise.
pub open spec fn ranks_overflow(s: Seq<Option<ColoredPiece>>, clean: bool, ranks: Seq<Seq<char>>, r: nat) -> bool
    decreases ranks.len(),
{
    if ranks.len() == 0 {
        false
    } else {
        rank_overflows(r, ranks[0], 0) || match scan_rank(s, clean, r, ranks[0], 0) {
            Ok((s2, c2)) => ranks_overflow(s2, c2, ranks.drop_first(), r + 1),
            Err(c) => false,
        }
    }
}

/// The empty board's squares.
pub open spec fn no_pieces() -> Seq<Option<ColoredPiece>> {
    Seq::new(64, |j: int| None)
}

/// Why the castling field cannot be read: a letter that is no piece, or a piece letter that
/// is no king or queen.
pub enum CastlingFault {
    NotAPiece(char),
    NotKingOrQueen(char),
}

/// Reads the castling field from its start: `-` ends it, `K`, `Q`, `k`, `q` grant White's
/// and Black's rights on the king's and queen's side.
pub open spec fn scan_castling(flags: (bool, bool, bool, bool), chars: Seq<char>) -> Result<(bool, bool, bool, bool), CastlingFault>
    decreases chars.len(),
{
    if chars.len() == 0 {
        Ok(flags)
    } else {
        let c = chars[0];
        if c == '-' {
            Ok(flags)
        } else if !is_fen_char(c) {
            Err(CastlingFault::NotAPiece(c))
        } else if c == 'q' {
            scan_castling((flags.0, flags.1, flags.2, true), chars.drop_first())
        } else if c == 'Q' {
            scan_castling((flags.0, true, flags.2, flags.3), chars.drop_first())
        } else if c == 'k' {
            scan_castling((flags.0, flags.1, true, flags.3), chars.drop_first())
        } else if c == 'K' {
            scan_castling((true, flags.1, flags.2, flags.3), chars.drop_first())
        } else {
            Err(CastlingFault::NotKingOrQueen(c))
        }
    }
}

/// The low byte of a character's code.
pub open spec fn char_byte(c: char) -> int {
    (c as u32 as int) % 256
}

/// Reads the en passant field with `active` to move: `-` for none, or a file letter and a
/// rank digit from 1 to 8 naming the square the pawn passed over; the pawn to take stands one
/// rank further from the side to move. `None` when the field is malformed.
pub open spec fn scan_en_passant(t: Seq<char>, active: Color) -> Option<Option<EnPassant>> {
    if t == seq!['-'] {
        Some(None)
    } else if t.len() < 2 || !is_digit_spec(t[1]) || digit_value(t[1]) < 1 || digit_value(t[1]) > 8 {
        None
    } else {
        let file = char_byte(t[0]) - 97;
        let rank = digit_value(t[1]) - 1;
        let capture_rank = if active == Color::White { rank - 1 } else { rank + 1 };
        Some(Some(EnPassant {
            to_move: Square { index: (rank * 8 + file) as u8 },
            to_capture: Square { index: (capture_rank * 8 + file) as u8 },
        }))
    }
}

/// Reading the en passant field runs out of numbers: a file letter below `a`, a square
/// number past 255, or a square on the first rank with White to move.
pub open spec fn en_passant_overflows(t: Seq<char>, active: Color) -> bool {
    &&& t != seq!['-']
    &&& t.len() >= 1
    &&& {
        let file = char_byte(t[0]) - 97;
        ||| file < 0
        ||| {
            &&& t.len() >= 2
            &&& is_digit_spec(t[1])
            &&& 1 <= digit_value(t[1]) <= 8
            &&& {
                let rank = digit_value(t[1]) - 1;
                ||| rank * 8 + file > 255
                ||| (active == Color::White && rank == 0)
                ||| (active == Color::Black && (rank + 1) * 8 + file > 255)
                ||| (active == Color::White && (rank - 1) * 8 + file > 255)
            }
        }
    }
}

/// What reading a FEN text comes to.
pub enum FenOutcome {
    /// Not six fields.
    Parts,
    /// A character of the placement that is neither a digit nor a piece letter.
    Piece(char),
    /// A side to move other than `w` or `b`.
    Active,
    /// A castling letter that is no piece letter.
    CastlingPiece(char),
    /// A castling piece letter that is no king or queen.
    Castling(char),
    /// A malformed en passant field.
    EnPassant,
    /// A half-move clock that is no `u16`.
    Halfmoves,
    /// A move number that is no `u16`.
    Fullmoves,
    /// The squares, whether every piece found its square empty, and the game state (with the
    /// hash still zero).
    Done(Seq<Option<ColoredPiece>>, bool, GameState),
}

/// Reads a FEN text: six space-separated fields for the placement, the side to move, the
/// castling rights, the en passant square, the half-move clock and the move number, checked
/// in that order.
pub open spec fn fen_outcome(t: Seq<char>) -> FenOutcome {
    let parts = split_spec(t, ' ');
    if parts.len() != 6 {
        FenOutcome::Parts
    } else {
        match scan_ranks(no_pieces(), true, split_spec(parts[0], '/'), 0) {
            Err(c) => FenOutcome::Piece(c),
            Ok((s, clean)) => if parts[1] != seq!['w'] && parts[1] != seq!['b'] {
                FenOutcome::Active
            } else {
                let active = if parts[1] == seq!['w'] { Color::White } else { Color::Black };
                match scan_castling((false, false, false, false), parts[2]) {
                    Err(CastlingFault::NotAPiece(c)) => FenOutcome::CastlingPiece(c),
                    Err(CastlingFault::NotKingOrQueen(c)) => FenOutcome::Castling(c),
                    Ok(flags) => match scan_en_passant(parts[3], active) {
                        None => FenOutcome::EnPassant,
                        Some(ep) => if !is_unsigned_text(parts[4], u16::MAX as nat) {
                            FenOutcome::Halfmoves
                        } else if !is_unsigned_text(parts[5], u16::MAX as nat) {
                            FenOutcome::Fullmoves
                        } else {
                            FenOutcome::Done(
                                s,
                                clean,
                                GameState {
                                    hash: ZobristHash(0),
                                    active,
                                    halfmoves: digits_value(unsigned_digits(parts[4])) as u16,
                                    fullmoves: digits_value(unsigned_digits(parts[5])) as u16,
                                    en_passant: ep,
                                    white_kingside: flags.0,
                                    white_queenside: flags.1,
                                    black_kingside: flags.2,
                                    black_queenside: flags.3,
                                    pinned: Bitboard(0),
                                    checkers: Bitboard(0),
                                },
                            )
                        },
                    },
                }
            },
        }
    }
}

/// Reading the FEN text runs out of numbers or squares on the way (in the placement or the
/// en passant field), before it fails otherwise.
pub open spec fn fen_overflows(t: Seq<char>) -> bool {
    let parts = split_spec(t, ' ');
    &&& parts.len() == 6
    &&& {
        ||| ranks_overflow(no_pieces(), true, split_spec(parts[0], '/'), 0)
        ||| {
            &&& scan_ranks(no_pieces(), true, split_spec(parts[0], '/'), 0) is Ok
            &&& (parts[1] == seq!['w'] || parts[1] == seq!['b'])
            &&& scan_castling((false, false, false, false), parts[2]) is Ok
            &&& en_passant_overflows(parts[3], if parts[1] == seq!['w'] { Color::White } else { Color::Black })
        }
    }
}

/// Reading back the FEN letter of a piece gives the piece.
pub proof fn lemma_piece_of_char(cp: ColoredPiece)
    requires
        cp.wf(),
    ensures
        piece_of_char(fen_char(cp.piece, cp.color)) == cp,
{
}

/// Puts the pieces of a FEN placement on `board`, whose squares are empty.
fn place_pieces(board: &mut Board, placement: &Vec<char>) -> (r: Result<(), char>)
    requires
        old(board).consistent(),
        old(board).pieces@ == no_pieces(),
        !ranks_overflow(no_pieces(), true, split_spec(placement@, '/'), 0),
    ensures
        final(board).shaped(),
        final(board).pieces_real(),
        final(board).hasher == old(board).hasher,
        final(board).history@ == old(board).history@,
        final(board).gamestate == old(board).gamestate.with_hash(final(board).gamestate.hash.0),
        match scan_ranks(no_pieces(), true, split_spec(placement@, '/'), 0) {
            Ok((s, clean)) => r is Ok && final(board).pieces@ == s && (clean ==> final(board).consistent()),
            Err(c) => r == Err::<(), char>(c),
        },
{
    let ranks = split_chars(placement, '/');
    let ghost rv = views(ranks@);
    let ghost target = scan_ranks(no_pieces(), true, rv, 0);
    let ghost g0 = board.gamestate;
    let ghost mut clean = true;
    proof {
        super::lemma_consistent_real(*board);
        assert(rv.subrange(0, rv.len() as int) =~= rv);
    }
    let mut k: usize = 0;
    while k < ranks.len()
        invariant
            k <= ranks.len(),
            rv == views(ranks@),
            rv == split_spec(placement@, '/'),
            target == scan_ranks(no_pieces(), true, split_spec(placement@, '/'), 0),
            g0 == old(board).gamestate,
            rv.len() == ranks@.len(),
            board.shaped(),
            board.pieces_real(),
            clean ==> board.consistent(),
            board.hasher == old(board).hasher,
            board.history@ == old(board).history@,
            board.gamestate == g0.with_hash(board.gamestate.hash.0),
            scan_ranks(board.pieces@, clean, rv.subrange(k as int, rv.len() as int), k as nat) == target,
            !ranks_overflow(board.pieces@, clean, rv.subrange(k as int, rv.len() as int), k as nat),
        decreases ranks.len() - k,
    {
        let rank = &ranks[k];
        let ghost cv = rank@;
        let ghost rest = rv.subrange(k + 1, rv.len() as int);
        proof {
            assert(rv.subrange(k as int, rv.len() as int).drop_first() =~= rest);
            assert(rv.subrange(k as int, rv.len() as int)[0] == cv);
            assert(cv.subrange(0, cv.len() as int) =~= cv);
        }
        let mut file_index: u8 = 0;
        let mut i: usize = 0;
        while i < rank.len()
            invariant
                i <= rank.len(),
                k < ranks.len(),
                rv == views(ranks@),
                rv == split_spec(placement@, '/'),
                target == scan_ranks(no_pieces(), true, split_spec(placement@, '/'), 0),
                g0 == old(board).gamestate,
                rv.len() == ranks@.len(),
                cv == rank@,
                rest == rv.subrange(k + 1, rv.len() as int),
                board.shaped(),
                board.pieces_real(),
                clean ==> board.consistent(),
                board.hasher == old(board).hasher,
                board.history@ == old(board).history@,
                board.gamestate == g0.with_hash(board.gamestate.hash.0),
                (match scan_rank(board.pieces@, clean, k as nat, cv.subrange(i as int, cv.len() as int), file_index as nat) {
                    Ok((s2, c2)) => scan_ranks(s2, c2, rest, (k + 1) as nat),
                    Err(e) => Err(e),
                }) == target,
                !rank_overflows(k as nat, cv.subrange(i as int, cv.len() as int), file_index as nat),
                (match scan_rank(board.pieces@, clean, k as nat, cv.subrange(i as int, cv.len() as int), file_index as nat) {
                    Ok((s2, c2)) => !ranks_overflow(s2, c2, rest, (k + 1) as nat),
                    Err(e) => true,
                }),
            decreases rank.len() - i,
        {
            let piece = rank[i];
            proof {
                assert(cv.subrange(i as int, cv.len() as int).drop_first() =~= cv.subrange(i + 1, cv.len() as int));
                assert(cv.subrange(i as int, cv.len() as int)[0] == piece);
            }
            if is_digit(piece) {
                let digit = (piece as u32 - 48) as u8;
                file_index = file_index + digit;
                i = i + 1;
                continue;
            }

            let rank_byte = (k % 256) as u8;
            let rank_index = 7 - rank_byte;

            let colored = ColoredPiece::from_fen(piece);
            let cp = match colored {
                Ok(cp) => cp,
                Err(_) => {
                    return Err(piece);
                },
            };
            proof {
                lemma_piece_of_char(cp);
            }
            let square = Square { index: (rank_index * 8) + file_index };
            let ghost before = board.pieces@;
            board.toggle(cp.color, cp.piece, square);
            proof {
                clean = clean && before[square.index as int] is None;
            }
            file_index = file_index + 1;
            i = i + 1;
        }
        proof {
            assert(cv.subrange(i as int, cv.len() as int).len() == 0);
        }
        k = k + 1;
    }
    proof {
        assert(rv.subrange(k as int, rv.len() as int).len() == 0);
    }
    Ok(())
}

/// Reads the castling field into `board`'s game state.
fn read_castling(board: &mut Board, text: &Vec<char>) -> (r: Result<(), BoardError>)
    ensures
        *final(board) == (Board { gamestate: final(board).gamestate, ..*old(board) }),
        match scan_castling(
            (
                old(board).gamestate.white_kingside,
                old(board).gamestate.white_queenside,
                old(board).gamestate.black_kingside,
                old(board).gamestate.black_queenside,
            ),
            text@,
        ) {
            Ok(flags) => r is Ok && final(board).gamestate == (GameState {
                white_kingside: flags.0,
                white_queenside: flags.1,
                black_kingside: flags.2,
                black_queenside: flags.3,
                ..old(board).gamestate
            }),
            Err(CastlingFault::NotAPiece(c)) => r matches Err(BoardError::ColoredPieceError(ColoredPieceError::InvalidFenPiece(e))) && e.piece == c,
            Err(CastlingFault::NotKingOrQueen(c)) => r matches Err(BoardError::WrongCastlingAvailibility(e)) && e.given == c,
        },
{
    let ghost target = scan_castling(
        (
            board.gamestate.white_kingside,
            board.gamestate.white_queenside,
            board.gamestate.black_kingside,
            board.gamestate.black_queenside,
        ),
        text@,
    );
    let ghost g0 = board.gamestate;
    proof {
        assert(text@.subrange(0, text@.len() as int) =~= text@);
    }
    let mut i: usize = 0;
    while i < text.len()
        invariant
            i <= text.len(),
            *board == (Board { gamestate: board.gamestate, ..*old(board) }),
            board.gamestate == (GameState {
                white_kingside: board.gamestate.white_kingside,
                white_queenside: board.gamestate.white_queenside,
                black_kingside: board.gamestate.black_kingside,
                black_queenside: board.gamestate.black_queenside,
                ..g0
            }),
            g0 == old(board).gamestate,
            target == scan_castling(
                (g0.white_kingside, g0.white_queenside, g0.black_kingside, g0.black_queenside),
                text@,
            ),
            scan_castling(
                (
                    board.gamestate.white_kingside,
                    board.gamestate.white_queenside,
                    board.gamestate.black_kingside,
                    board.gamestate.black_queenside,
                ),
                text@.subrange(i as int, text@.len() as int),
            ) == target,
        ensures
            i <= text.len(),
            i < text.len() ==> text@[i as int] == '-',
            *board == (Board { gamestate: board.gamestate, ..*old(board) }),
            board.gamestate == (GameState {
                white_kingside: board.gamestate.white_kingside,
                white_queenside: board.gamestate.white_queenside,
                black_kingside: board.gamestate.black_kingside,
                black_queenside: board.gamestate.black_queenside,
                ..g0
            }),
            scan_castling(
                (
                    board.gamestate.white_kingside,
                    board.gamestate.white_queenside,
                    board.gamestate.black_kingside,
                    board.gamestate.black_queenside,
                ),
                text@.subrange(i as int, text@.len() as int),
            ) == target,
        decreases text.len() - i,
    {
        let availibility = text[i];
        proof {
            assert(text@.subrange(i as int, text@.len() as int).drop_first() =~= text@.subrange(i + 1, text@.len() as int));
            assert(text@.subrange(i as int, text@.len() as int)[0] == availibility);
        }
        if availibility == '-' {
            break;
        }

        let piece = match ColoredPiece::from_fen(availibility) {
            Ok(piece) => piece,
            Err(e) => {
                return Err(BoardError::ColoredPieceError(e));
            },
        };
        proof {
            lemma_piece_of_char(piece);
        }
        match (piece.color, piece.piece) {
            (Color::Black, Piece::Queen) => board.gamestate.black_queenside = true,
            (Color::White, Piece::Queen) => board.gamestate.white_queenside = true,
            (Color::Black, Piece::King) => board.gamestate.black_kingside = true,
            (Color::White, Piece::King) => board.gamestate.white_kingside = true,
            _ => {
                return Err(BoardError::WrongCastlingAvailibility(WrongCastlingAvailibility::new(availibility)));
            },
        }
        i = i + 1;
    }
    proof {
        if i == text.len() {
            assert(text@.subrange(i as int, text@.len() as int).len() == 0);
        } else {
            assert(text@.subrange(i as int, text@.len() as int)[0] == '-');
        }
    }
    Ok(())
}

/// Reads the en passant field with `active` to move; `None` when it is malformed.
fn read_en_passant(text: &Vec<char>, active: Color) -> (r: Option<Option<EnPassant>>)
    requires
        !en_passant_overflows(text@, active),
    ensures
        r == scan_en_passant(text@, active),
{
    if text.len() == 1 && text[0] == '-' {
        proof {
            assert(text@ =~= seq!['-']);
        }
        return Some(None);
    }
    proof {
        assert(text@ != seq!['-']);
    }
    if text.len() < 1 {
        return None;
    }
    let code = (text[0] as u32 % 256) as u8;
    let file = code - 97u8;

    if text.len() < 2 {
        return None;
    }
    let rank_char = text[1];
    if !is_digit(rank_char) {
        return None;
    }
    let rank = rank_char as u32 - 48;
    if rank < 1 || rank > 8 {
        return None;
    }

    let to_move_rank = (rank as u8) - 1;
    let to_move = Square { index: (to_move_rank * 8) + file };

    let to_capture_rank = match active {
        Color::White => to_move_rank - 1,
        Color::Black => to_move_rank + 1,
    };
    let to_capture = Square { index: (to_capture_rank * 8) + file };

    Some(Some(EnPassant::new(to_move, to_capture)))
}

/// The castling field of `gs`.
fn castling_text(gs: &GameState) -> (r: Vec<char>)
    ensures
        r@ == fen_castling(*gs),
{
    let ghost a = if gs.white_kingside { seq!['K'] } else { Seq::<char>::empty() };
    let ghost b = if gs.white_queenside { seq!['Q'] } else { Seq::<char>::empty() };
    let ghost c = if gs.black_kingside { seq!['k'] } else { Seq::<char>::empty() };
    let ghost d = if gs.black_queenside { seq!['q'] } else { Seq::<char>::empty() };
    let mut castling: Vec<char> = Vec::new();
    if gs.white_kingside {
        castling.push('K');
    }
    assert(castling@ =~= a);
    if gs.white_queenside {
        castling.push('Q');
    }
    assert(castling@ =~= a + b);
    if gs.black_kingside {
        castling.push('k');
    }
    assert(castling@ =~= a + b + c);
    if gs.black_queenside {
        castling.push('q');
    }
    assert(castling@ =~= a + b + c + d);
    if castling.len() == 0 {
        castling.push('-');
    }
    castling
}

impl<'a> Board<'a> {
    /// The FEN text of one rank.
    fn rank_text(&self, rank: u8) -> (r: Vec<char>)
        requires
            self.consistent(),
            rank < 8,
        ensures
            r@ == fen_rank(self.pieces@, rank as int, 0, 0),
    {
        let ghost s = self.pieces@;
        let mut empty: u8 = 0;
        let mut line: Vec<char> = Vec::new();
        let mut file: u8 = 0;
        while file < 8
            invariant
                file <= 8,
                rank < 8,
                empty <= file,
                self.consistent(),
                s == self.pieces@,
                line@ + fen_rank(s, rank as int, file as int, empty as nat) == fen_rank(s, rank as int, 0, 0),
            decreases 8 - file,
        {
            let square = Square::new(rank, file);
            let piece = self.get_piece_type(square);
            match piece {
                Some(piece) => {
                    proof {
                        reveal(super::squares_agree);
                        assert(s[rank * 8 + file] matches Some(cp) ==> cp.piece.is_real());
                    }
                    if empty > 0 {
                        line.push((48u8 + empty) as char);
                        empty = 0;
                    }
                    line.push(piece.to_fen());
                },
                None => empty = empty + 1,
            }
            file = file + 1;
        }
        if empty > 0 {
            line.push((48u8 + empty) as char);
        }
        line
    }

    /// The FEN text of the ranks, from the eighth down.
    fn placement_text(&self) -> (r: Vec<char>)
        requires
            self.consistent(),
        ensures
            r@ == fen_rows(self.pieces@, 0),
    {
        let ghost s = self.pieces@;
        let mut fen: Vec<char> = Vec::new();
        let mut rank: u8 = 8;
        while rank > 0
            invariant
                rank <= 8,
                self.consistent(),
                s == self.pieces@,
                fen@ == fen_rows(s, rank as int),
            decreases rank,
        {
            rank = rank - 1;
            let mut line = self.rank_text(rank);
            fen.append(&mut line);
            if rank > 0 {
                fen.push('/');
            }
            proof {
                assert(fen@ =~= fen_rows(s, rank as int));
            }
        }
        fen
    }

    /// The position in Forsyth-Edwards notation.
    #[verifier::rlimit(30)]
    pub fn to_fen(&self) -> (r: String)
        requires
            self.consistent(),
            self.gamestate.en_passant matches Some(ep) ==> ep.to_capture.wf(),
        ensures
            r@ == fen_text(self.pieces@, self.gamestate),
    {
        let mut fen = self.placement_text();

        fen.push(' ');
        match self.gamestate.active {
            Color::White => fen.push('w'),
            Color::Black => fen.push('b'),
        }

        fen.push(' ');
        let mut castling = castling_text(&self.gamestate);
        fen.append(&mut castling);

        fen.push(' ');
        match self.gamestate.en_passant {
            Some(en_passant) => {
                let sq = en_passant.to_capture;
                fen.push((97u8 + sq.file()) as char);
                fen.push((49u8 + sq.rank()) as char);
            },
            None => fen.push('-'),
        }

        fen.push(' ');
        push_decimal(&mut fen, self.gamestate.halfmoves as u64);

        fen.push(' ');
        push_decimal(&mut fen, self.gamestate.fullmoves as u64);

        proof {
            assert(fen@ =~= fen_text(self.pieces@, self.gamestate));
        }
        chars_to_string(&fen)
    }

    /// Reads a position in Forsyth-Edwards notation: six space-separated fields for the
    /// placement, the side to move, the castling rights, the en passant square, the half-move
    /// clock and the move number. The hash is computed from the position read.
    pub fn from_str(fen: &str, hasher: &'a ZobristHasher) -> (r: Result<Board<'a>, BoardError>)
        requires
            hasher.wf(),
            !fen_overflows(fen@),
        ensures
            match fen_outcome(fen@) {
                FenOutcome::Parts => r matches Err(BoardError::NotEnoughParts(_)),
                FenOutcome::Piece(c) => r matches Err(BoardError::ColoredPieceError(ColoredPieceError::InvalidFenPiece(e)))
                    && e.piece == c,
                FenOutcome::Active => r matches Err(BoardError::WrongActiveColor(e)) && e.given@ == split_spec(fen@, ' ')[1],
                FenOutcome::CastlingPiece(c) => r matches Err(BoardError::ColoredPieceError(ColoredPieceError::InvalidFenPiece(e)))
                    && e.piece == c,
                FenOutcome::Castling(c) => r matches Err(BoardError::WrongCastlingAvailibility(e)) && e.given == c,
                FenOutcome::EnPassant => r matches Err(BoardError::InvalidEnPassant(e)) && e.square@ == split_spec(fen@, ' ')[3],
                FenOutcome::Halfmoves => r matches Err(BoardError::ParseInt(_)),
                FenOutcome::Fullmoves => r matches Err(BoardError::ParseInt(_)),
                FenOutcome::Done(s, clean, gs) => r matches Ok(b) && b.hasher == hasher && b.shaped() && b.pieces_real()
                    && b.pieces@ == s && b.gamestate == gs.with_hash(full_hash(*hasher, s, gs)) && b.history@.len() == 0
                    && (clean ==> b.consistent()),
            },
    {
        let chars = str_to_chars(fen);
        let fen_parts = split_chars(&chars, ' ');
        let ghost parts = split_spec(fen@, ' ');
        if fen_parts.len() != 6 {
            return Err(BoardError::NotEnoughParts(NotEnoughParts));
        }
        proof {
            assert(parts[0] == fen_parts@[0]@);
            assert(parts[1] == fen_parts@[1]@);
            assert(parts[2] == fen_parts@[2]@);
            assert(parts[3] == fen_parts@[3]@);
            assert(parts[4] == fen_parts@[4]@);
            assert(parts[5] == fen_parts@[5]@);
        }

        let mut board = Board::empty(hasher);
        proof {
            assert(board.pieces@ =~= no_pieces());
        }

        match place_pieces(&mut board, &fen_parts[0]) {
            Ok(()) => {},
            Err(piece) => {
                return Err(BoardError::ColoredPieceError(ColoredPieceError::InvalidFenPiece(InvalidFenPiece::new(piece))));
            },
        }

        let active_color = &fen_parts[1];
        if active_color.len() == 1 && active_color[0] == 'w' {
            board.gamestate.active = Color::White;
            proof {
                assert(active_color@ =~= seq!['w']);
            }
        } else if active_color.len() == 1 && active_color[0] == 'b' {
            board.gamestate.active = Color::Black;
            proof {
                assert(active_color@ =~= seq!['b']);
            }
        } else {
            proof {
                assert(active_color@ != seq!['w']);
                assert(active_color@ != seq!['b']);
            }
            let given = chars_to_string(active_color);
            return Err(BoardError::WrongActiveColor(WrongActiveColor::new(given.as_str())));
        }

        match read_castling(&mut board, &fen_parts[2]) {
            Ok(()) => {},
            Err(e) => {
                return Err(e);
            },
        }

        match read_en_passant(&fen_parts[3], board.gamestate.active) {
            Some(en_passant) => board.gamestate.en_passant = en_passant,
            None => {
                let square = chars_to_string(&fen_parts[3]);
                return Err(BoardError::InvalidEnPassant(InvalidEnPassant::new(square.as_str())));
            },
        }

        let halfmoves_text = chars_to_string(&fen_parts[4]);
        let halfmoves = match parse_u16(halfmoves_text.as_str()) {
            Ok(n) => n,
            Err(e) => {
                return Err(BoardError::ParseInt(e));
            },
        };
        board.gamestate.halfmoves = halfmoves;

        let fullmoves_text = chars_to_string(&fen_parts[5]);
        let fullmoves = match parse_u16(fullmoves_text.as_str()) {
            Ok(n) => n,
            Err(e) => {
                return Err(BoardError::ParseInt(e));
            },
        };
        board.gamestate.fullmoves = fullmoves;

        let hash = board.board_hash();
        board.gamestate.hash = hash;

        Ok(board)
    }
}

} // verus!
