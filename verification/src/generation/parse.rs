use vstd::prelude::*;

use crate::bitboard::constants::{C1, C8, E1, E8, G1, G8};
use crate::bitboard::error::SquareError;
use crate::bitboard::square::{lemma_square_text_round_trip, square_text, square_text_rank_zero, Square};
use crate::board::color::Color;
use crate::board::fen::square_name;
use crate::board::piece::{fen_char, is_fen_char, ColoredPiece, Piece};
use crate::board::Board;
use crate::text::{chars_to_string, is_digit, is_digit_spec, is_lowercase, is_lowercase_spec, str_to_chars};

use super::error::{InvalidMoveFormat, MoveError, PieceNotFound};
use super::mov::Move;
use super::new_gen::{generated_ok, promotion_choice};

verus! {

/// The index a square name's letter and digit stand for, counting on past `h` and `8`.
pub open spec fn name_index(t: Seq<char>) -> int {
    (t[1] as int - '1' as int) * 8 + (t[0] as int - 'a' as int)
}

/// Whether `t` starts with a lowercase letter and a digit.
pub open spec fn square_like(t: Seq<char>) -> bool {
    t.len() >= 2 && is_lowercase_spec(t[0]) && is_digit_spec(t[1])
}

/// The number of bytes character `c` takes in UTF-8.
pub open spec fn char_width(c: char) -> nat {
    if (c as u32) < 0x80 {
        1
    } else if (c as u32) < 0x800 {
        2
    } else if (c as u32) < 0x10000 {
        3
    } else {
        4
    }
}

/// The number of bytes `t` takes in UTF-8.
pub open spec fn byte_len(t: Seq<char>) -> nat
    decreases t.len(),
{
    if t.len() == 0 {
        0
    } else {
        byte_len(t.drop_last()) + char_width(t.last())
    }
}

/// The first two bytes of `t`, as characters: two one-byte characters, or one of two bytes.
pub open spec fn first_cut(t: Seq<char>) -> Seq<char> {
    if char_width(t[0]) == 1 {
        t.subrange(0, 2)
    } else {
        t.subrange(0, 1)
    }
}

/// The third and fourth bytes of `t`, whose first two characters take a byte each.
pub open spec fn second_cut(t: Seq<char>) -> Seq<char> {
    if char_width(t[2]) == 1 {
        t.subrange(2, 4)
    } else {
        t.subrange(2, 3)
    }
}

/// Cutting a text of four bytes or more after its second byte, and after its fourth when its
/// first two bytes are a square's letter and digit, splits no character.
pub open spec fn cuts_clean(t: Seq<char>) -> bool {
    byte_len(t) >= 4 ==> {
        &&& char_width(t[0]) == 2 || (char_width(t[0]) == 1 && char_width(t[1]) == 1)
        &&& square_like(first_cut(t)) ==> (char_width(t[2]) == 2 || (char_width(t[2]) == 1 && char_width(t[3]) == 1))
    }
}

/// A move text names squares off the board or a rank zero, where reading it fails.
pub open spec fn move_text_off_board(t: Seq<char>) -> bool {
    &&& byte_len(t) >= 4
    &&& {
        ||| square_text_rank_zero(first_cut(t))
        ||| (square_like(first_cut(t)) && square_text_rank_zero(second_cut(t)))
        ||| (square_like(first_cut(t)) && square_like(second_cut(t)) && (name_index(first_cut(t)) >= 64
            || name_index(second_cut(t)) >= 64))
    }
}

/// Each character takes at least one byte.
proof fn lemma_byte_len_bound(t: Seq<char>)
    ensures
        byte_len(t) >= t.len(),
    decreases t.len(),
{
    if t.len() > 0 {
        lemma_byte_len_bound(t.drop_last());
    }
}

/// The bytes of `t`'s first `i + 1` characters are those of its first `i` and the next one.
proof fn lemma_byte_len_take(t: Seq<char>, i: int)
    requires
        0 <= i < t.len(),
    ensures
        byte_len(t.take(i + 1)) == byte_len(t.take(i)) + char_width(t[i]),
{
    assert(t.take(i + 1).drop_last() =~= t.take(i));
}

/// The number of bytes of `chars`, or six when there are six characters or more.
fn bytes_up_to_six(chars: &Vec<char>) -> (r: usize)
    ensures
        chars.len() < 6 ==> r == byte_len(chars@),
        chars.len() >= 6 ==> r == 6 && byte_len(chars@) >= 6,
{
    if chars.len() >= 6 {
        proof {
            lemma_byte_len_bound(chars@);
        }
        return 6;
    }
    let mut sum: usize = 0;
    let mut i: usize = 0;
    while i < chars.len()
        invariant
            i <= chars.len(),
            chars.len() < 6,
            sum == byte_len(chars@.take(i as int)),
            sum <= 4 * i,
        decreases chars.len() - i,
    {
        proof {
            lemma_byte_len_take(chars@, i as int);
        }
        let c = chars[i] as u32;
        let w: usize = if c < 0x80 {
            1
        } else if c < 0x800 {
            2
        } else if c < 0x10000 {
            3
        } else {
            4
        };
        sum = sum + w;
        i = i + 1;
    }
    proof {
        assert(chars@.take(chars.len() as int) =~= chars@);
    }
    sum
}

/// The number of bytes `c` takes in UTF-8.
fn width_of(c: char) -> (w: usize)
    ensures
        w == char_width(c),
{
    let v = c as u32;
    if v < 0x80 {
        1
    } else if v < 0x800 {
        2
    } else if v < 0x10000 {
        3
    } else {
        4
    }
}

/// The index a square name's letter and digit stand for, computed.
fn name_index_of(a: char, b: char) -> (r: i64)
    ensures
        r == name_index(seq![a, b]),
{
    ((b as u32) as i64 - 49) * 8 + ((a as u32) as i64 - 97)
}

/// Whether `Move::parse` may be given the text `text`: it is cut between characters and names
/// no square off the board.
pub fn move_text_fits(text: &str) -> (b: bool)
    ensures
        b == (cuts_clean(text@) && !move_text_off_board(text@)),
{
    let chars = str_to_chars(text);
    let bytes = bytes_up_to_six(&chars);
    if bytes < 4 {
        return true;
    }
    let ghost t = text@;
    proof {
        reveal_with_fuel(byte_len, 7);
        lemma_byte_len_bound(t);
        if char_width(t[0]) == 1 && t.len() == 1 {
            assert(t.drop_last().len() == 0);
        }
    }
    let w0 = width_of(chars[0]);
    if w0 > 2 {
        return false;
    }
    if w0 == 1 && width_of(chars[1]) != 1 {
        return false;
    }
    if w0 == 2 {
        proof {
            assert(first_cut(t) =~= seq![t[0]]);
        }
        return true;
    }
    let a = chars[0];
    let c = chars[1];
    proof {
        assert(first_cut(t) =~= seq![a, c]);
    }
    if is_lowercase(a) && c == '0' {
        return false;
    }
    if !(is_lowercase(a) && is_digit(c)) {
        return true;
    }
    proof {
        reveal_with_fuel(byte_len, 7);
        if t.len() == 2 {
            assert(t.drop_last().drop_last().len() == 0);
        }
        if char_width(t[2]) == 1 && t.len() == 3 {
            assert(t.drop_last().drop_last().drop_last().len() == 0);
        }
    }
    let w2 = width_of(chars[2]);
    if w2 > 2 {
        return false;
    }
    if w2 == 1 && width_of(chars[3]) != 1 {
        return false;
    }
    if w2 == 2 {
        proof {
            assert(second_cut(t) =~= seq![t[2]]);
        }
        return true;
    }
    let d = chars[2];
    let e = chars[3];
    proof {
        assert(second_cut(t) =~= seq![d, e]);
    }
    if is_lowercase(d) && e == '0' {
        return false;
    }
    if !(is_lowercase(d) && is_digit(e)) {
        return true;
    }
    name_index_of(a, c) < 64 && name_index_of(d, e) < 64
}

/// The castling moves of the king: e1 to g1 or c1 for White, e8 to g8 or c8 for Black.
pub open spec fn castling_pair(color: Color, from: int, to: int) -> bool {
    ||| (color == Color::Black && from == 60 && (to == 62 || to == 58))
    ||| (color == Color::White && from == 4 && (to == 6 || to == 2))
}

/// The move a text such as `e2e4` or `e7e8q` stands for on `board`, given that its squares
/// are on the board and hold a piece on the first: an en passant capture when a pawn goes to
/// the en passant square, a promotion when a fifth letter names a piece, a capture when the
/// target holds a piece, castling when a king makes a castling step, and a quiet move
/// otherwise.
pub open spec fn parsed_move(board: Board, t: Seq<char>, m: Move) -> bool {
    let from = Square { index: name_index(first_cut(t)) as u8 };
    let to = Square { index: name_index(second_cut(t)) as u8 };
    let cp = board.pieces@[from.index as int]->Some_0;
    let captured = match board.pieces@[to.index as int] {
        Some(c) => c.piece,
        None => Piece::NoPiece,
    };
    let en_passant = board.gamestate.en_passant matches Some(ep) && ep.to_move == to && cp.piece == Piece::Pawn;
    if en_passant {
        m.fields(Piece::Pawn, from, to, Piece::Pawn, board.gamestate.en_passant->Some_0.to_capture, Piece::NoPiece, false, true)
    } else if byte_len(t) == 5 {
        let promoted = crate::board::fen::piece_of_char(t[4]).piece;
        m.fields(
            Piece::Pawn,
            from,
            to,
            captured,
            if captured == Piece::NoPiece { Square { index: 0 } } else { to },
            promoted,
            false,
            false,
        )
    } else if captured != Piece::NoPiece {
        m.fields(cp.piece, from, to, captured, to, Piece::NoPiece, false, false)
    } else if cp.piece == Piece::King && castling_pair(cp.color, from.index as int, to.index as int) {
        m.fields(Piece::King, from, to, Piece::NoPiece, Square { index: 0 }, Piece::NoPiece, true, false)
    } else {
        m.fields(cp.piece, from, to, Piece::NoPiece, Square { index: 0 }, Piece::NoPiece, false, false)
    }
}

/// The text of a move: its two square names, and the promoted piece's lowercase letter for
/// a promotion.
pub open spec fn move_text(m: Move) -> Seq<char> {
    square_name(Square { index: m.spec_from() as u8 }) + square_name(Square { index: m.spec_to() as u8 }) + (
    if m.spec_is_promotion() {
        seq![fen_char(m.spec_promoted(), Color::Black)]
    } else {
        seq![]
    })
}

/// A text whose characters each take one byte takes as many bytes as it has characters.
proof fn lemma_byte_len_ascii(t: Seq<char>)
    requires
        forall|i: int| 0 <= i < t.len() ==> char_width(#[trigger] t[i]) == 1,
    ensures
        byte_len(t) == t.len(),
    decreases t.len(),
{
    if t.len() > 0 {
        assert(char_width(t[t.len() - 1]) == 1);
        lemma_byte_len_ascii(t.drop_last());
    }
}

/// The name of a square on the board is two one-byte characters that read back as the square.
proof fn lemma_square_name_reads(sq: Square)
    requires
        sq.wf(),
    ensures
        square_name(sq).len() == 2,
        square_like(square_name(sq)),
        char_width(square_name(sq)[0]) == 1,
        char_width(square_name(sq)[1]) == 1,
        name_index(square_name(sq)) == sq.index,
{
    lemma_square_text_round_trip(sq);
    assert(square_name(sq) == square_text(sq));
}

/// Law: reading the text of a promotion, such as `e7e8n`, gives a pawn move between the same
/// squares that promotes to the same piece, when the target square is not the en passant
/// square (a pawn going there is read as taking en passant).
pub proof fn lemma_promotion_text_read(board: Board, m: Move, read: Move)
    requires
        m.spec_is_promotion(),
        promotion_choice(m.spec_promoted()),
        !(board.gamestate.en_passant matches Some(ep) && ep.to_move.index == m.spec_to()),
        parsed_move(board, move_text(m), read),
    ensures
        read.spec_piece() == Piece::Pawn,
        read.spec_from() == m.spec_from(),
        read.spec_to() == m.spec_to(),
        read.spec_promoted() == m.spec_promoted(),
        !read.spec_is_castling(),
        !read.spec_is_en_passant(),
{
    crate::generation::mov::lemma_masks(m.0);
    let from = Square { index: m.spec_from() as u8 };
    let to = Square { index: m.spec_to() as u8 };
    lemma_square_name_reads(from);
    lemma_square_name_reads(to);
    let letter = fen_char(m.spec_promoted(), Color::Black);
    crate::board::fen::lemma_piece_of_char(ColoredPiece { piece: m.spec_promoted(), color: Color::Black });
    let t = move_text(m);
    assert(t =~= square_name(from) + square_name(to) + seq![letter]);
    assert(t.len() == 5);
    assert(char_width(letter) == 1);
    assert forall|i: int| 0 <= i < t.len() implies char_width(#[trigger] t[i]) == 1 by {
        if i < 2 {
            assert(t[i] == square_name(from)[i]);
        } else if i < 4 {
            assert(t[i] == square_name(to)[i - 2]);
        }
    }
    lemma_byte_len_ascii(t);
    assert(first_cut(t) =~= square_name(from));
    assert(second_cut(t) =~= square_name(to));
    assert(t[4] == letter);
}

/// Law: the text `to_string` writes for a move the generator hands out is four characters,
/// the two square names, or five with the promoted piece's lowercase letter; reading it gives
/// the move back: the same piece, squares, promotion, capture, castling and en passant, unless
/// a pawn steps without taking en passant onto the en passant square (read as taking en
/// passant).
pub proof fn lemma_move_text_read(board: Board, m: Move, read: Move)
    requires
        generated_ok(board, m),
        m.spec_piece() == Piece::Pawn && !m.spec_is_en_passant() ==> !(board.gamestate.en_passant matches Some(ep)
            && ep.to_move.index == m.spec_to()),
        parsed_move(board, move_text(m), read),
    ensures
        read.spec_piece() == m.spec_piece(),
        read.spec_from() == m.spec_from(),
        read.spec_to() == m.spec_to(),
        read.spec_promoted() == m.spec_promoted(),
        read.spec_is_castling() == m.spec_is_castling(),
        read.spec_is_en_passant() == m.spec_is_en_passant(),
        read.spec_is_capture() == m.spec_is_capture(),
        m.spec_is_capture() ==> read.spec_capture_square() == m.spec_capture_square(),
        m.spec_is_capture() && !m.spec_is_en_passant() ==> read.spec_captured() == m.spec_captured(),
        move_text(m).len() == (if m.spec_is_promotion() { 5int } else { 4int }),
        move_text(m).subrange(0, 2) == square_name(Square { index: m.spec_from() as u8 }),
        move_text(m).subrange(2, 4) == square_name(Square { index: m.spec_to() as u8 }),
        m.spec_is_promotion() ==> is_lowercase_spec(move_text(m)[4]),
{
    crate::generation::mov::lemma_masks(m.0);
    let a = board.gamestate.active;
    let from = Square { index: m.spec_from() as u8 };
    let to = Square { index: m.spec_to() as u8 };
    lemma_square_name_reads(from);
    lemma_square_name_reads(to);
    let t = move_text(m);
    assert(board.pieces@[m.spec_from() as int] == Some(ColoredPiece { piece: m.spec_piece(), color: a }));
    if m.spec_is_promotion() {
        let letter = fen_char(m.spec_promoted(), Color::Black);
        crate::board::fen::lemma_piece_of_char(ColoredPiece { piece: m.spec_promoted(), color: Color::Black });
        assert(t =~= square_name(from) + square_name(to) + seq![letter]);
        assert(char_width(letter) == 1);
        assert(t[4] == letter);
    } else {
        assert(t =~= square_name(from) + square_name(to));
    }
    assert forall|i: int| 0 <= i < t.len() implies char_width(#[trigger] t[i]) == 1 by {
        if i < 2 {
            assert(t[i] == square_name(from)[i]);
        } else if i < 4 {
            assert(t[i] == square_name(to)[i - 2]);
        }
    }
    lemma_byte_len_ascii(t);
    assert(first_cut(t) =~= square_name(from));
    assert(second_cut(t) =~= square_name(to));
    if m.spec_is_capture() && !m.spec_is_en_passant() {
        assert(m.spec_capture_square() == m.spec_to());
    } else if !m.spec_is_capture() {
        assert(crate::board::moves::after_capture(board.pieces@, m) == board.pieces@);
    }
    if m.spec_piece() == Piece::King && !m.spec_is_castling() {
        assert(crate::lookup::king_target(m.spec_from() as int, m.spec_to() as int));
        assert(!castling_pair(a, m.spec_from() as int, m.spec_to() as int));
    }
}

impl Move {
    /// Reads a move in coordinate notation, such as `e2e4` or `e7e8q`, against `board`.
    pub fn parse(board: &Board, input: &str) -> (r: Result<Self, MoveError>)
        requires
            board.shaped(),
            cuts_clean(input@),
            !move_text_off_board(input@),
            board.gamestate.en_passant matches Some(ep) ==> ep.to_capture.wf(),
        ensures
            byte_len(input@) < 4 ==> (r matches Err(MoveError::InvalidMoveFormat(e)) && e.mov@ == input@),
            byte_len(input@) >= 4 && !square_like(first_cut(input@)) ==> (r matches Err(MoveError::SquareError(e))
                && e.input() == first_cut(input@)),
            byte_len(input@) >= 4 && square_like(first_cut(input@)) && !square_like(second_cut(input@))
                ==> (r matches Err(MoveError::SquareError(e)) && e.input() == second_cut(input@)),
            byte_len(input@) >= 4 && square_like(first_cut(input@)) && square_like(second_cut(input@)) ==> {
                let from = name_index(first_cut(input@));
                if board.pieces@[from] is None {
                    r matches Err(MoveError::PieceNotFound(e)) && e.square@ == square_name(Square { index: from as u8 })
                } else if byte_len(input@) == 5 && !is_fen_char(input@[4]) {
                    r matches Err(MoveError::ColoredPieceError(_))
                } else {
                    r matches Ok(m) && parsed_move(*board, input@, m)
                }
            },
    {
        let chars = str_to_chars(input);
        let bytes = bytes_up_to_six(&chars);
        if bytes < 4 {
            return Err(MoveError::InvalidMoveFormat(InvalidMoveFormat::new(input)));
        }
        let ghost t = input@;
        proof {
            reveal_with_fuel(byte_len, 7);
            lemma_byte_len_bound(t);
            assert(t.len() >= 1);
            if char_width(t[0]) == 1 && t.len() == 1 {
                assert(t.drop_last().len() == 0);
            }
        }

        let mut from_text: Vec<char> = Vec::new();
        from_text.push(chars[0]);
        if (chars[0] as u32) < 0x80 {
            from_text.push(chars[1]);
        }
        let from_string = chars_to_string(&from_text);
        proof {
            assert(from_text@ =~= first_cut(t));
        }
        let from = match Square::from_str(from_string.as_str()) {
            Ok(square) => square,
            Err(e) => {
                return Err(MoveError::SquareError(e));
            },
        };

        proof {
            reveal_with_fuel(byte_len, 7);
            assert(char_width(t[0]) == 1 && char_width(t[1]) == 1);
            if t.len() == 2 {
                assert(t.drop_last().drop_last().len() == 0);
            }
            assert(t.len() >= 3);
            if char_width(t[2]) == 1 && t.len() == 3 {
                assert(t.drop_last().drop_last().drop_last().len() == 0);
            }
        }
        let mut to_text: Vec<char> = Vec::new();
        to_text.push(chars[2]);
        if (chars[2] as u32) < 0x80 {
            to_text.push(chars[3]);
        }
        let to_string = chars_to_string(&to_text);
        proof {
            assert(to_text@ =~= second_cut(t));
        }
        let to = match Square::from_str(to_string.as_str()) {
            Ok(square) => square,
            Err(e) => {
                return Err(MoveError::SquareError(e));
            },
        };

        let colored_piece = match board.get_piece_type(from) {
            Some(colored_piece) => colored_piece,
            None => {
                let name = from.to_string();
                return Err(MoveError::PieceNotFound(PieceNotFound::new(name.as_str())));
            },
        };
        let captured = match board.get_piece_type(to) {
            Some(colored_piece) => colored_piece.piece,
            None => Piece::NoPiece,
        };

        proof {
            reveal_with_fuel(byte_len, 7);
            assert(char_width(t[2]) == 1 && char_width(t[3]) == 1);
            if t.len() == 4 {
                assert(t.drop_last().drop_last().drop_last().drop_last().len() == 0);
                assert(byte_len(t) == 4);
            }
            if bytes == 5 {
                assert(t.len() == 5);
            }
        }
        let promoted_piece = if bytes == 5 {
            let piece = chars[4];
            match ColoredPiece::from_fen(piece) {
                Ok(colored_piece) => {
                    proof {
                        crate::board::fen::lemma_piece_of_char(colored_piece);
                    }
                    Some(colored_piece.piece)
                },
                Err(e) => {
                    return Err(MoveError::ColoredPieceError(e));
                },
            }
        } else {
            None
        };

        let is_en_passant = match board.gamestate.en_passant {
            Some(en_passant) => en_passant.to_move == to && colored_piece.piece == Piece::Pawn,
            None => false,
        };

        let mov = if is_en_passant {
            let en_passant = board.gamestate.en_passant.unwrap();
            Move::en_passant(from, to, en_passant.to_capture)
        } else if let Some(promoted) = promoted_piece {
            Move::promotion(from, to, promoted, captured)
        } else if captured != Piece::NoPiece {
            Move::capture(colored_piece.piece, from, to, captured)
        } else if colored_piece.piece == Piece::King {
            if (colored_piece.color == Color::Black && from.index == E8 && (to.index == G8 || to.index == C8))
                || (colored_piece.color == Color::White && from.index == E1 && (to.index == G1 || to.index == C1)) {
                Move::castling(from, to)
            } else {
                Move::quiet(Piece::King, from, to)
            }
        } else {
            Move::quiet(colored_piece.piece, from, to)
        };

        Ok(mov)
    }

    /// The move in coordinate notation, such as `e2e4` or `e7e8q`.
    pub fn to_string(&self) -> (r: String)
        requires
            self.wf(),
        ensures
            r@ == move_text(*self),
    {
        let from = self.from();
        let to = self.to();
        let mut text: Vec<char> = Vec::new();
        text.push((97u8 + from.file()) as char);
        text.push((49u8 + from.rank()) as char);
        text.push((97u8 + to.file()) as char);
        text.push((49u8 + to.rank()) as char);
        if self.is_promotion() {
            proof {
                super::mov::lemma_masks(self.0);
            }
            let colored_piece = ColoredPiece::new(self.promoted_piece(), Color::Black);
            text.push(colored_piece.to_fen());
        }
        proof {
            assert(text@ =~= move_text(*self));
        }
        chars_to_string(&text)
    }
}

impl Square {
    /// Whether `mov` takes the piece on this square.
    pub fn is_attacked(&self, mov: &Move) -> (r: bool)
        ensures
            r == (mov.0 & crate::generation::mov::IS_CAPTURE_MASK != 0 && mov.spec_capture_square() == self.index),
    {
        if !mov.is_capture() {
            return false;
        }

        let capture_square = mov.capture_square();
        capture_square == *self
    }
}

} // verus!
