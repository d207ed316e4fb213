use vstd::prelude::*;

use crate::bitboard::Bitboard;
use crate::lookup::lemma_index_rf;
use crate::text::{
    decimal, digit_char, digit_value, digits_value, is_digit_spec, is_unsigned_text, split_from,
    split_spec, unsigned_digits,
};

use super::color::Color;
use super::fen::{
    fen_castling, fen_outcome, fen_overflows, fen_rank, fen_rows, fen_text, field_rank,
    lemma_piece_of_char, no_pieces, piece_of_char, rank_overflows, ranks_overflow,
    en_passant_overflows, scan_castling, scan_en_passant, scan_rank, scan_ranks, FenOutcome,
};
use super::piece::{fen_char, is_fen_char, ColoredPiece, Piece};
use super::zobrist::ZobristHash;
use super::moves::ep_offset;
use super::{toggle_seq, Board, EnPassant, GameState};
use crate::generation::mov::Move;

verus! {

/// Splitting a text that holds no separator gives the text, after what was already read.
proof fn lemma_split_whole(x: Seq<char>, sep: char, cur: Seq<char>)
    requires
        forall|i: int| 0 <= i < x.len() ==> x[i] != sep,
    ensures
        split_from(x, sep, cur) == seq![cur + x],
    decreases x.len(),
{
    if x.len() == 0 {
        assert(cur + x =~= cur);
    } else {
        lemma_split_whole(x.drop_first(), sep, cur.push(x[0]));
        assert(cur.push(x[0]) + x.drop_first() =~= cur + x);
    }
}

/// Splitting two texts joined by the separator gives the pieces of the first, then those of
/// the second.
proof fn lemma_split_join(x: Seq<char>, sep: char, y: Seq<char>, cur: Seq<char>)
    ensures
        split_from(x + seq![sep] + y, sep, cur) == split_from(x, sep, cur) + split_from(y, sep, seq![]),
    decreases x.len(),
{
    let z = x + seq![sep] + y;
    if x.len() == 0 {
        assert(z[0] == sep);
        assert(z.drop_first() =~= y);
        assert(split_from(x, sep, cur) == seq![cur]);
    } else {
        assert(z[0] == x[0]);
        assert(z.drop_first() =~= x.drop_first() + seq![sep] + y);
        if x[0] == sep {
            lemma_split_join(x.drop_first(), sep, y, seq![]);
            assert(seq![cur] + (split_from(x.drop_first(), sep, seq![]) + split_from(y, sep, seq![]))
                =~= seq![cur] + split_from(x.drop_first(), sep, seq![]) + split_from(y, sep, seq![]));
        } else {
            lemma_split_join(x.drop_first(), sep, y, cur.push(x[0]));
        }
    }
}

/// `split_spec` of two texts joined by the separator.
proof fn lemma_split_spec_join(x: Seq<char>, sep: char, y: Seq<char>)
    ensures
        split_spec(x + seq![sep] + y, sep) == split_spec(x, sep) + split_spec(y, sep),
{
    lemma_split_join(x, sep, y, seq![]);
}

/// `split_spec` of a text without the separator.
proof fn lemma_split_spec_whole(x: Seq<char>, sep: char)
    requires
        forall|i: int| 0 <= i < x.len() ==> x[i] != sep,
    ensures
        split_spec(x, sep) == seq![x],
{
    lemma_split_whole(x, sep, seq![]);
    assert(Seq::<char>::empty() + x =~= x);
}

/// The digit character of a digit is a digit of that value.
proof fn lemma_digit_char(d: nat)
    requires
        d < 10,
    ensures
        is_digit_spec(digit_char(d)),
        digit_value(digit_char(d)) == d,
{
    assert(((d + 48) as u8) as char as int == d + 48);
}

/// The decimal text of a number is made of digits, at least one, and reads back as the
/// number.
proof fn lemma_decimal(n: nat)
    ensures
        decimal(n).len() >= 1,
        forall|i: int| 0 <= i < decimal(n).len() ==> is_digit_spec(#[trigger] decimal(n)[i]),
        digits_value(decimal(n)) == n,
    decreases n,
{
    if n < 10 {
        lemma_digit_char(n);
        let d = decimal(n);
        assert(d.drop_last() =~= Seq::<char>::empty());
        assert(d.last() == digit_char(n));
        assert(digits_value(d.drop_last()) == 0);
        assert(digits_value(d) == digits_value(d.drop_last()) * 10 + digit_value(d.last()) as nat);
    } else {
        lemma_decimal(n / 10);
        lemma_digit_char(n % 10);
        let d = decimal(n);
        assert(d.drop_last() =~= decimal(n / 10));
        assert(d.last() == digit_char(n % 10));
        assert(digits_value(d) == digits_value(d.drop_last()) * 10 + digit_value(d.last()) as nat);
        assert((n / 10) * 10 + n % 10 == n) by (nonlinear_arith);
    }
}

/// The decimal text of a number that fits a `u16` is read back by `parse::<u16>`.
pub proof fn lemma_decimal_reads_back(n: u16)
    ensures
        is_unsigned_text(decimal(n as nat), u16::MAX as nat),
        digits_value(unsigned_digits(decimal(n as nat))) == n,
        forall|i: int| 0 <= i < decimal(n as nat).len() ==> is_digit_spec(#[trigger] decimal(n as nat)[i]),
{
    lemma_decimal(n as nat);
    assert(is_digit_spec(decimal(n as nat)[0]));
    assert(unsigned_digits(decimal(n as nat)) == decimal(n as nat));
}

/// A character that a FEN rank field is made of: a digit or a piece letter.
pub open spec fn is_rank_char(c: char) -> bool {
    ||| is_digit_spec(c)
    ||| c == 'P' || c == 'N' || c == 'B' || c == 'R' || c == 'Q' || c == 'K'
    ||| c == 'p' || c == 'n' || c == 'b' || c == 'r' || c == 'q' || c == 'k'
}

/// The letter of a real piece is a piece letter and no digit, and reads back as the piece.
proof fn lemma_fen_letter(cp: ColoredPiece)
    requires
        cp.wf(),
    ensures
        is_fen_char(fen_char(cp.piece, cp.color)),
        !is_digit_spec(fen_char(cp.piece, cp.color)),
        is_rank_char(fen_char(cp.piece, cp.color)),
        piece_of_char(fen_char(cp.piece, cp.color)) == cp,
{
    lemma_piece_of_char(cp);
}

/// The squares `t` with those of rank `rank` from file `from` on taken from `s`.
pub open spec fn fill_rank(
    t: Seq<Option<ColoredPiece>>,
    s: Seq<Option<ColoredPiece>>,
    rank: int,
    from: int,
) -> Seq<Option<ColoredPiece>> {
    Seq::new(64, |i: int| if i / 8 == rank && i % 8 >= from { s[i] } else { t[i] })
}

/// The pieces on the board are real pieces.
pub open spec fn real_pieces(s: Seq<Option<ColoredPiece>>) -> bool {
    forall|i: int| 0 <= i < 64 ==> (#[trigger] s[i] matches Some(cp) ==> cp.wf())
}

/// Reading the FEN text of a rank, from the file where its pending run of empty squares
/// began, onto squares where that part of the rank is empty, puts the rank's pieces there,
/// finds every square empty, and runs out of nothing.
proof fn lemma_scan_fen_rank(
    s: Seq<Option<ColoredPiece>>,
    t: Seq<Option<ColoredPiece>>,
    r: nat,
    file: int,
    empty: nat,
)
    requires
        r < 8,
        0 <= file <= 8,
        empty <= file,
        s.len() == 64,
        t.len() == 64,
        real_pieces(s),
        forall|k: int| file - empty <= k < file ==> #[trigger] s[(7 - r) * 8 + k] is None,
        forall|k: int| file - empty <= k < 8 ==> #[trigger] t[(7 - r) * 8 + k] is None,
    ensures
        scan_rank(t, true, r, fen_rank(s, 7 - r, file, empty), (file - empty) as nat) == Ok::<
            (Seq<Option<ColoredPiece>>, bool),
            char,
        >((fill_rank(t, s, 7 - r, file - empty), true)),
        !rank_overflows(r, fen_rank(s, 7 - r, file, empty), (file - empty) as nat),
        forall|i: int| 0 <= i < fen_rank(s, 7 - r, file, empty).len() ==> is_rank_char(
            #[trigger] fen_rank(s, 7 - r, file, empty)[i],
        ),
    decreases 8 - file,
{
    let rank = 7 - r;
    let start = file - empty;
    let text = fen_rank(s, rank, file, empty);
    assert(field_rank(r) == rank);
    let pre = if empty > 0 {
        seq![digit_char(empty)]
    } else {
        Seq::<char>::empty()
    };
    if empty > 0 {
        lemma_digit_char(empty);
    }
    if file >= 8 {
        assert(text == pre);
        assert forall|i: int| 0 <= i < 64 implies #[trigger] fill_rank(t, s, rank, start)[i] == t[i] by {
            if i / 8 == rank && i % 8 >= start {
                lemma_index_rf(rank, i % 8);
                assert(i == rank * 8 + i % 8);
            }
        }
        assert(fill_rank(t, s, rank, start) =~= t);
        if empty > 0 {
            assert(text[0] == digit_char(empty));
            assert(text.drop_first() =~= Seq::<char>::empty());
            assert(start + digit_value(digit_char(empty)) == 8);
            assert(scan_rank(t, true, r, text.drop_first(), 8) == Ok::<(Seq<Option<ColoredPiece>>, bool), char>((t, true)));
            assert(!rank_overflows(r, text.drop_first(), 8));
        } else {
            assert(text.len() == 0);
        }
    } else {
        lemma_index_rf(rank, file);
        let idx = rank * 8 + file;
        match s[idx] {
            Some(cp) => {
                assert(real_pieces(s) ==> (s[idx] matches Some(c) ==> c.wf()));
                lemma_fen_letter(cp);
                let c = fen_char(cp.piece, cp.color);
                let rest = fen_rank(s, rank, file + 1, 0);
                assert(text == pre + seq![c] + rest);
                let t2 = toggle_seq(t, idx, piece_of_char(c));
                assert(t[idx] is None);
                assert(t2 == t.update(idx, Some(cp)));
                assert forall|k: int| file + 1 <= k < 8 implies #[trigger] t2[rank * 8 + k] is None by {
                    lemma_index_rf(rank, k);
                }
                assert forall|k: int| file + 1 - 0 <= k < file + 1 implies #[trigger] s[rank * 8 + k] is None by {}
                lemma_scan_fen_rank(s, t2, r, file + 1, 0);
                assert forall|i: int| 0 <= i < 64 implies #[trigger] fill_rank(t2, s, rank, file + 1)[i] == fill_rank(t, s, rank, start)[i] by {
                    if i / 8 == rank && start <= i % 8 && i % 8 <= file {
                        lemma_index_rf(rank, i % 8);
                        assert(i == rank * 8 + i % 8);
                    }
                }
                assert(fill_rank(t2, s, rank, file + 1) =~= fill_rank(t, s, rank, start));
                let tail = seq![c] + rest;
                assert(tail[0] == c);
                assert(tail.drop_first() =~= rest);
                assert(scan_rank(t, true, r, tail, file as nat) == scan_rank(t2, true, r, rest, (file + 1) as nat));
                assert(rank_overflows(r, tail, file as nat) == rank_overflows(r, rest, (file + 1) as nat));
                if empty > 0 {
                    assert(text[0] == digit_char(empty));
                    assert(text.drop_first() =~= tail);
                    assert(start + digit_value(digit_char(empty)) == file);
                    assert(scan_rank(t, true, r, text, start as nat) == scan_rank(t, true, r, tail, file as nat));
                    assert(rank_overflows(r, text, start as nat) == rank_overflows(r, tail, file as nat));
                } else {
                    assert(text =~= tail);
                }
                assert forall|i: int| 0 <= i < text.len() implies is_rank_char(#[trigger] text[i]) by {
                    if empty > 0 && i == 0 {
                    } else if (empty > 0 && i == 1) || (empty == 0 && i == 0) {
                    } else {
                        let j = if empty > 0 { i - 2 } else { i - 1 };
                        assert(text[i] == rest[j]);
                    }
                }
            },
            None => {
                assert forall|k: int| (file + 1) - (empty + 1) <= k < file + 1 implies #[trigger] s[rank * 8 + k] is None by {}
                assert(text == fen_rank(s, rank, file + 1, empty + 1));
                lemma_scan_fen_rank(s, t, r, file + 1, empty + 1);
            },
        }
    }
}

/// The squares of `s` on the ranks at and above `8 - k`, the others empty: what the first
/// `k` rank fields of a FEN text put on the board.
pub open spec fn upper_ranks(s: Seq<Option<ColoredPiece>>, k: int) -> Seq<Option<ColoredPiece>> {
    Seq::new(64, |i: int| if i / 8 >= 8 - k { s[i] } else { None })
}

/// The rank fields of the FEN text of `s`, from the eighth rank down to rank `r`.
pub open spec fn rank_texts(s: Seq<Option<ColoredPiece>>, r: int) -> Seq<Seq<char>>
    decreases 7 - r,
{
    if r >= 7 {
        seq![fen_rank(s, 7, 0, 0)]
    } else {
        rank_texts(s, r + 1).push(fen_rank(s, r, 0, 0))
    }
}

proof fn lemma_rank_texts(s: Seq<Option<ColoredPiece>>, r: int)
    requires
        0 <= r <= 7,
    ensures
        rank_texts(s, r).len() == 8 - r,
        forall|k: int| 0 <= k < 8 - r ==> #[trigger] rank_texts(s, r)[k] == fen_rank(s, 7 - k, 0, 0),
    decreases 7 - r,
{
    if r < 7 {
        lemma_rank_texts(s, r + 1);
    }
}

/// Reading the rank fields of the FEN text of `s` from the `k`-th on, after the first `k`
/// were read, gives the squares of `s`, all found empty, and runs out of nothing.
proof fn lemma_scan_fen_ranks(s: Seq<Option<ColoredPiece>>, k: int)
    requires
        0 <= k <= 8,
        s.len() == 64,
        real_pieces(s),
    ensures
        scan_ranks(upper_ranks(s, k), true, rank_texts(s, 0).subrange(k, 8), k as nat) == Ok::<
            (Seq<Option<ColoredPiece>>, bool),
            char,
        >((s, true)),
        !ranks_overflow(upper_ranks(s, k), true, rank_texts(s, 0).subrange(k, 8), k as nat),
    decreases 8 - k,
{
    lemma_rank_texts(s, 0);
    let texts = rank_texts(s, 0).subrange(k, 8);
    if k == 8 {
        assert(texts.len() == 0);
        assert forall|i: int| 0 <= i < 64 implies #[trigger] upper_ranks(s, 8)[i] == s[i] by {}
        assert(upper_ranks(s, 8) =~= s);
    } else {
        let u = upper_ranks(s, k);
        let r = k as nat;
        assert(texts[0] == fen_rank(s, 7 - k, 0, 0));
        assert forall|f: int| 0 <= f < 8 implies #[trigger] u[(7 - r) * 8 + f] is None by {
            lemma_index_rf(7 - k, f);
        }
        lemma_scan_fen_rank(s, u, r, 0, 0);
        assert forall|i: int| 0 <= i < 64 implies #[trigger] fill_rank(u, s, 7 - k, 0)[i] == upper_ranks(s, k + 1)[i] by {}
        assert(fill_rank(u, s, 7 - k, 0) =~= upper_ranks(s, k + 1));
        assert(texts.drop_first() =~= rank_texts(s, 0).subrange(k + 1, 8));
        lemma_scan_fen_ranks(s, k + 1);
    }
}

/// The FEN text of a rank is made of digits and piece letters.
proof fn lemma_rank_text_chars(s: Seq<Option<ColoredPiece>>, rank: int)
    requires
        0 <= rank < 8,
        s.len() == 64,
        real_pieces(s),
    ensures
        forall|i: int| 0 <= i < fen_rank(s, rank, 0, 0).len() ==> is_rank_char(#[trigger] fen_rank(s, rank, 0, 0)[i]),
{
    let r = (7 - rank) as nat;
    assert forall|k: int| 0 <= k < 8 implies #[trigger] no_pieces()[(7 - r) * 8 + k] is None by {
        lemma_index_rf(rank, k);
    }
    lemma_scan_fen_rank(s, no_pieces(), r, 0, 0);
}

/// The FEN placement from the eighth rank down to rank `r`, without the slash after it.
pub open spec fn rows_down_to(s: Seq<Option<ColoredPiece>>, r: int) -> Seq<char> {
    fen_rows(s, r + 1) + fen_rank(s, r, 0, 0)
}

/// Splitting the placement at its slashes gives the rank fields, and it holds no space.
proof fn lemma_rows_split(s: Seq<Option<ColoredPiece>>, r: int)
    requires
        0 <= r <= 7,
        s.len() == 64,
        real_pieces(s),
    ensures
        split_spec(rows_down_to(s, r), '/') == rank_texts(s, r),
        forall|i: int| 0 <= i < rows_down_to(s, r).len() ==> #[trigger] rows_down_to(s, r)[i] != ' ',
    decreases 7 - r,
{
    lemma_rank_text_chars(s, r);
    let x = fen_rank(s, r, 0, 0);
    assert forall|i: int| 0 <= i < x.len() implies x[i] != '/' && x[i] != ' ' by {
        assert(is_rank_char(x[i]));
    }
    lemma_split_spec_whole(x, '/');
    if r == 7 {
        assert(fen_rows(s, 8) == Seq::<char>::empty());
        assert(rows_down_to(s, 7) =~= x);
    } else {
        lemma_rows_split(s, r + 1);
        let y = rows_down_to(s, r + 1);
        assert(fen_rows(s, r + 1) == y + seq!['/']);
        assert(rows_down_to(s, r) == y + seq!['/'] + x);
        lemma_split_spec_join(y, '/', x);
        assert(rank_texts(s, r) == rank_texts(s, r + 1).push(x));
        assert(rank_texts(s, r + 1).push(x) =~= rank_texts(s, r + 1) + seq![x]);
        let z = rows_down_to(s, r);
        assert forall|i: int| 0 <= i < z.len() implies #[trigger] z[i] != ' ' by {
            if i < y.len() {
                assert(z[i] == y[i]);
            } else if i == y.len() {
            } else {
                assert(z[i] == x[i - y.len() - 1]);
            }
        }
    }
}

/// A castling flag set by its letter.
pub open spec fn set_flag(f: (bool, bool, bool, bool), ch: char) -> (bool, bool, bool, bool) {
    if ch == 'K' {
        (true, f.1, f.2, f.3)
    } else if ch == 'Q' {
        (f.0, true, f.2, f.3)
    } else if ch == 'k' {
        (f.0, f.1, true, f.3)
    } else {
        (f.0, f.1, f.2, true)
    }
}

proof fn lemma_castle_peel(f: (bool, bool, bool, bool), flag: bool, ch: char, rest: Seq<char>)
    requires
        ch == 'K' || ch == 'Q' || ch == 'k' || ch == 'q',
    ensures
        scan_castling(f, (if flag { seq![ch] } else { Seq::<char>::empty() }) + rest) == scan_castling(
            if flag {
                set_flag(f, ch)
            } else {
                f
            },
            rest,
        ),
{
    if flag {
        let x = seq![ch] + rest;
        assert(x[0] == ch);
        assert(x.drop_first() =~= rest);
        if ch == 'K' {
            assert(fen_char(Piece::King, Color::White) == 'K');
        } else if ch == 'Q' {
            assert(fen_char(Piece::Queen, Color::White) == 'Q');
        } else if ch == 'k' {
            assert(fen_char(Piece::King, Color::Black) == 'k');
        } else {
            assert(fen_char(Piece::Queen, Color::Black) == 'q');
        }
    } else {
        assert(Seq::<char>::empty() + rest =~= rest);
    }
}

/// Reading the castling field of a position gives back its rights, and the field holds no
/// space.
proof fn lemma_scan_castling(gs: GameState)
    ensures
        scan_castling((false, false, false, false), fen_castling(gs)) == Ok::<
            (bool, bool, bool, bool),
            super::fen::CastlingFault,
        >((gs.white_kingside, gs.white_queenside, gs.black_kingside, gs.black_queenside)),
        forall|i: int| 0 <= i < fen_castling(gs).len() ==> #[trigger] fen_castling(gs)[i] != ' ',
{
    let a = if gs.white_kingside { seq!['K'] } else { Seq::<char>::empty() };
    let b = if gs.white_queenside { seq!['Q'] } else { Seq::<char>::empty() };
    let c = if gs.black_kingside { seq!['k'] } else { Seq::<char>::empty() };
    let d = if gs.black_queenside { seq!['q'] } else { Seq::<char>::empty() };
    let t = a + b + c + d;
    let f0 = (false, false, false, false);
    if t.len() == 0 {
        assert(fen_castling(gs) == seq!['-']);
    } else {
        assert(fen_castling(gs) == t);
        assert(t =~= a + (b + (c + (d + Seq::<char>::empty()))));
        lemma_castle_peel(f0, gs.white_kingside, 'K', b + (c + (d + Seq::<char>::empty())));
        let f1 = if gs.white_kingside { set_flag(f0, 'K') } else { f0 };
        lemma_castle_peel(f1, gs.white_queenside, 'Q', c + (d + Seq::<char>::empty()));
        let f2 = if gs.white_queenside { set_flag(f1, 'Q') } else { f1 };
        lemma_castle_peel(f2, gs.black_kingside, 'k', d + Seq::<char>::empty());
        let f3 = if gs.black_kingside { set_flag(f2, 'k') } else { f2 };
        lemma_castle_peel(f3, gs.black_queenside, 'q', Seq::<char>::empty());
        assert forall|i: int| 0 <= i < t.len() implies #[trigger] t[i] != ' ' by {
            let ab = a + b;
            let abc = ab + c;
            if i < a.len() {
                assert(t[i] == a[i]);
            } else if i < ab.len() {
                assert(t[i] == b[i - a.len()]);
            } else if i < abc.len() {
                assert(t[i] == c[i - ab.len()]);
            } else {
                assert(t[i] == d[i - abc.len()]);
            }
        }
    }
}

/// Writing a position in FEN and reading the text back gives the same squares, all found
/// empty when their piece was put on them, and the same side to move, castling rights and
/// counters, with no en passant square; reading the text never runs out of numbers or
/// squares. A position with an en passant square is left out: its text names the square of
/// the pawn that may be taken, which reading takes for the square the pawn passed over.
pub proof fn lemma_fen_round_trip(s: Seq<Option<ColoredPiece>>, gs: GameState)
    requires
        s.len() == 64,
        real_pieces(s),
        gs.en_passant is None,
    ensures
        !fen_overflows(fen_text(s, gs)),
        fen_outcome(fen_text(s, gs)) == FenOutcome::Done(
            s,
            true,
            GameState { hash: ZobristHash(0), pinned: Bitboard(0), checkers: Bitboard(0), ..gs },
        ),
{
    let rows = fen_rows(s, 0);
    lemma_rows_split(s, 0);
    assert(rows =~= rows_down_to(s, 0));
    let act = seq![if gs.active == Color::White { 'w' } else { 'b' }];
    let cast = fen_castling(gs);
    lemma_scan_castling(gs);
    let ep = seq!['-'];
    let h = decimal(gs.halfmoves as nat);
    let f = decimal(gs.fullmoves as nat);
    lemma_decimal_reads_back(gs.halfmoves);
    lemma_decimal_reads_back(gs.fullmoves);
    let p1 = rows + seq![' '] + act;
    let p2 = p1 + seq![' '] + cast;
    let p3 = p2 + seq![' '] + ep;
    let p4 = p3 + seq![' '] + h;
    let text = p4 + seq![' '] + f;
    assert(fen_text(s, gs) == text);
    lemma_split_spec_whole(rows, ' ');
    lemma_split_spec_whole(act, ' ');
    lemma_split_spec_whole(cast, ' ');
    lemma_split_spec_whole(ep, ' ');
    assert forall|i: int| 0 <= i < h.len() implies h[i] != ' ' by {
        assert(is_digit_spec(h[i]));
    }
    assert forall|i: int| 0 <= i < f.len() implies f[i] != ' ' by {
        assert(is_digit_spec(f[i]));
    }
    lemma_split_spec_whole(h, ' ');
    lemma_split_spec_whole(f, ' ');
    lemma_split_spec_join(rows, ' ', act);
    lemma_split_spec_join(p1, ' ', cast);
    lemma_split_spec_join(p2, ' ', ep);
    lemma_split_spec_join(p3, ' ', h);
    lemma_split_spec_join(p4, ' ', f);
    let parts = split_spec(text, ' ');
    assert(parts =~= seq![rows, act, cast, ep, h, f]);
    lemma_rank_texts(s, 0);
    assert(rank_texts(s, 0).subrange(0, 8) =~= rank_texts(s, 0));
    assert(upper_ranks(s, 0) =~= no_pieces());
    lemma_scan_fen_ranks(s, 0);
    assert(split_spec(parts[0], '/') == rank_texts(s, 0));
    assert(scan_en_passant(ep, gs.active) == Some(None::<super::EnPassant>));
}


/// Reading the FEN text that a position without an en passant square writes, and writing the
/// position read (whatever its hash), gives the same text back.
pub proof fn lemma_fen_rewrites(t: Seq<char>, s: Seq<Option<ColoredPiece>>, gs: GameState)
    requires
        s.len() == 64,
        real_pieces(s),
        gs.en_passant is None,
        t == fen_text(s, gs),
    ensures
        !fen_overflows(t),
        fen_outcome(t) matches FenOutcome::Done(s2, clean, gs2) && clean && forall|h: u64|
            #[trigger] fen_text(s2, gs2.with_hash(h)) == t,
{
    lemma_fen_round_trip(s, gs);
    let gs2 = GameState { hash: ZobristHash(0), pinned: Bitboard(0), checkers: Bitboard(0), ..gs };
    assert forall|h: u64| #[trigger] fen_text(s, gs2.with_hash(h)) == t by {
        assert(fen_castling(gs2.with_hash(h)) == fen_castling(gs));
    }
}

/// The en passant record `ep` suits `active` to move: the square passed over lies one rank
/// behind the pawn that may be taken, as seen from the other side, whose double step leaves
/// such a record.
pub open spec fn en_passant_fits(ep: EnPassant, active: Color) -> bool {
    ep.to_move.index as int == ep.to_capture.index as int + ep_offset(active.opposite())
}

/// Law: the en passant square read from a FEN text puts the pawn that may be taken one rank
/// beyond the named square, away from the side to move (White to move: one rank lower; Black
/// to move: one rank higher), as a double step of the other side leaves it.
pub proof fn lemma_fen_en_passant_fits(t: Seq<char>)
    requires
        !fen_overflows(t),
        fen_outcome(t) matches FenOutcome::Done(_, _, gs) && gs.en_passant is Some,
    ensures
        fen_outcome(t) matches FenOutcome::Done(_, _, gs) && en_passant_fits(gs.en_passant->Some_0, gs.active),
{
    let parts = split_spec(t, ' ');
    let active = if parts[1] == seq!['w'] { Color::White } else { Color::Black };
    assert(!en_passant_overflows(parts[3], active));
    let f = parts[3];
    assert(f != seq!['-']);
    assert(scan_en_passant(f, active) matches Some(Some(_)));
}

/// Law: a double pawn step leaves an en passant record that suits the side then to move, with
/// the pawn that moved as the one that may be taken.
pub proof fn lemma_double_step_en_passant(board: Board, m: Move, after: Board)
    requires
        after.made_from(board, m),
        m.spec_is_double_pawn(),
        0 <= m.spec_to() + ep_offset(board.gamestate.active) < 256,
    ensures
        after.gamestate.en_passant matches Some(ep) && ep.to_capture.index == m.spec_to() && en_passant_fits(
            ep,
            after.gamestate.active,
        ),
{
    crate::generation::mov::lemma_masks(m.0);
}

/// Reading castling letters that hold no `-` grants, on top of `flags`, each right whose
/// letter occurs: `K` White's kingside, `Q` White's queenside, `k` Black's kingside and `q`
/// Black's queenside.
proof fn lemma_castling_letters(flags: (bool, bool, bool, bool), f: Seq<char>)
    requires
        forall|i: int| 0 <= i < f.len() ==> f[i] != '-',
    ensures
        scan_castling(flags, f) matches Ok(r) ==> r == (flags.0 || f.contains('K'), flags.1 || f.contains('Q'),
            flags.2 || f.contains('k'), flags.3 || f.contains('q')),
    decreases f.len(),
{
    if f.len() > 0 {
        let c = f[0];
        let g = if c == 'q' {
            (flags.0, flags.1, flags.2, true)
        } else if c == 'Q' {
            (flags.0, true, flags.2, flags.3)
        } else if c == 'k' {
            (flags.0, flags.1, true, flags.3)
        } else {
            (true, flags.1, flags.2, flags.3)
        };
        lemma_castling_letters(g, f.drop_first());
        assert forall|x: char| f.contains(x) <==> (x == c || f.drop_first().contains(x)) by {
            if f.contains(x) {
                let i = choose|i: int| 0 <= i < f.len() && f[i] == x;
                if i > 0 {
                    assert(f.drop_first()[i - 1] == x);
                }
            }
            if f.drop_first().contains(x) {
                let i = choose|i: int| 0 <= i < f.drop_first().len() && f.drop_first()[i] == x;
                assert(f[i + 1] == x);
            }
            if x == c {
                assert(f[0] == x);
            }
        }
    }
}

/// Law: the castling rights read from a FEN text are those its castling field names: `-`
/// grants none, and a field of letters grants White's kingside right exactly when it holds
/// `K`, White's queenside right when it holds `Q`, Black's kingside right when it holds `k`
/// and Black's queenside right when it holds `q`.
pub proof fn lemma_fen_castling_rights(t: Seq<char>)
    requires
        fen_outcome(t) is Done,
    ensures
        ({
            let f = split_spec(t, ' ')[2];
            fen_outcome(t) matches FenOutcome::Done(_, _, gs) && (f == seq!['-'] ==> !gs.white_kingside
                && !gs.white_queenside && !gs.black_kingside && !gs.black_queenside) && ((forall|i: int|
                0 <= i < f.len() ==> f[i] != '-') ==> gs.white_kingside == f.contains('K') && gs.white_queenside
                == f.contains('Q') && gs.black_kingside == f.contains('k') && gs.black_queenside == f.contains('q'))
        }),
{
    let f = split_spec(t, ' ')[2];
    if forall|i: int| 0 <= i < f.len() ==> f[i] != '-' {
        lemma_castling_letters((false, false, false, false), f);
    }
    if f == seq!['-'] {
        assert(f[0] == '-');
    }
}

/// Law: a FEN text that reads has six space-separated fields; its second field is `w` for
/// White to move or `b` for Black, its fifth the half-move clock and its sixth the move number.
pub proof fn lemma_fen_fields(t: Seq<char>)
    requires
        fen_outcome(t) is Done,
    ensures
        ({
            let parts = split_spec(t, ' ');
            &&& parts.len() == 6
            &&& parts[1] == seq!['w'] || parts[1] == seq!['b']
            &&& fen_outcome(t) matches FenOutcome::Done(_, _, gs) && gs.active == (if parts[1] == seq!['w'] {
                Color::White
            } else {
                Color::Black
            }) && gs.halfmoves == digits_value(unsigned_digits(parts[4])) && gs.fullmoves == digits_value(
                unsigned_digits(parts[5]),
            )
        }),
{
}

} // verus!
