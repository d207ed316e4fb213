use vstd::prelude::*;

use crate::board::color::Color;
use crate::board::piece::{is_fen_char, ColoredPiece, Piece};
use crate::text::{digit_value, is_digit, is_digit_spec, split_chars, split_spec, str_to_chars, views};

use super::fen::{
    char_byte, en_passant_overflows, fen_overflows, no_pieces, rank_overflows, ranks_overflow, scan_castling, scan_rank,
    scan_ranks,
};

verus! {

/// Every character of a rank field is a digit or a piece letter.
pub open spec fn rank_chars_ok(chars: Seq<char>) -> bool {
    forall|i: int| 0 <= i < chars.len() ==> is_digit_spec(#[trigger] chars[i]) || is_fen_char(chars[i])
}

/// Reading a rank field fails only on a character that is neither a digit nor a piece letter,
/// whatever stands on the squares already.
proof fn lemma_scan_rank_ok(s: Seq<Option<ColoredPiece>>, clean: bool, r: nat, chars: Seq<char>, f: nat)
    ensures
        (scan_rank(s, clean, r, chars, f) is Ok) == rank_chars_ok(chars),
    decreases chars.len(),
{
    if chars.len() > 0 {
        let c = chars[0];
        let rest = chars.drop_first();
        assert forall|i: int| 0 <= i < rest.len() implies (#[trigger] rest[i]) == chars[i + 1] by {}
        if is_digit_spec(c) {
            lemma_scan_rank_ok(s, clean, r, rest, f + digit_value(c) as nat);
        } else if is_fen_char(c) {
            let idx = super::fen::field_rank(r) * 8 + f;
            lemma_scan_rank_ok(
                crate::board::toggle_seq(s, idx, super::fen::piece_of_char(c)),
                clean && s[idx] is None,
                r,
                rest,
                f + 1,
            );
        }
        if rank_chars_ok(rest) && (is_digit_spec(c) || is_fen_char(c)) {
            assert forall|i: int| 0 <= i < chars.len() implies is_digit_spec(#[trigger] chars[i]) || is_fen_char(chars[i]) by {
                if i > 0 {
                    assert(chars[i] == rest[i - 1]);
                }
            }
        }
        if rank_chars_ok(chars) {
            assert(is_digit_spec(chars[0]) || is_fen_char(chars[0]));
            assert forall|i: int| 0 <= i < rest.len() implies is_digit_spec(#[trigger] rest[i]) || is_fen_char(rest[i]) by {
                assert(rest[i] == chars[i + 1]);
            }
        }
    }
}

/// Reading the rank fields runs out of squares, told without the squares: some field, all of
/// whose predecessors read cleanly, overflows.
pub open spec fn ranks_overflow_plain(ranks: Seq<Seq<char>>, r: nat) -> bool
    decreases ranks.len(),
{
    if ranks.len() == 0 {
        false
    } else {
        rank_overflows(r, ranks[0], 0) || (rank_chars_ok(ranks[0]) && ranks_overflow_plain(ranks.drop_first(), r + 1))
    }
}

/// Whether the rank fields overflow does not depend on the squares read so far.
proof fn lemma_ranks_overflow_plain(s: Seq<Option<ColoredPiece>>, clean: bool, ranks: Seq<Seq<char>>, r: nat)
    ensures
        ranks_overflow(s, clean, ranks, r) == ranks_overflow_plain(ranks, r),
        (scan_ranks(s, clean, ranks, r) is Ok) == (forall|i: int| 0 <= i < ranks.len() ==> rank_chars_ok(#[trigger] ranks[i])),
    decreases ranks.len(),
{
    if ranks.len() > 0 {
        lemma_scan_rank_ok(s, clean, r, ranks[0], 0);
        let rest = ranks.drop_first();
        match scan_rank(s, clean, r, ranks[0], 0) {
            Ok((s2, c2)) => {
                lemma_ranks_overflow_plain(s2, c2, rest, r + 1);
            },
            Err(_) => {},
        }
        lemma_ranks_overflow_plain(no_pieces(), true, rest, r + 1);
        assert forall|i: int| 0 <= i < rest.len() implies (#[trigger] rest[i]) == ranks[i + 1] by {}
        if forall|i: int| 0 <= i < ranks.len() ==> rank_chars_ok(#[trigger] ranks[i]) {
            assert(rank_chars_ok(ranks[0]));
            assert forall|i: int| 0 <= i < rest.len() implies rank_chars_ok(#[trigger] rest[i]) by {
                assert(rank_chars_ok(ranks[i + 1]));
            }
        }
        if rank_chars_ok(ranks[0]) && forall|i: int| 0 <= i < rest.len() ==> rank_chars_ok(#[trigger] rest[i]) {
            assert forall|i: int| 0 <= i < ranks.len() implies rank_chars_ok(#[trigger] ranks[i]) by {
                if i > 0 {
                    assert(ranks[i] == rest[i - 1]);
                }
            }
        }
    }
}

/// Whether reading the rank field `chars`, the `r`-th, runs out of numbers or squares.
fn rank_overflow_of(r: usize, chars: &Vec<char>) -> (b: bool)
    ensures
        b == rank_overflows(r as nat, chars@, 0),
{
    let ghost t = chars@;
    let mut f: u32 = 0;
    let mut i: usize = 0;
    let rr = r % 256;
    proof {
        assert(t.skip(0) =~= t);
    }
    while i < chars.len()
        invariant
            i <= chars.len(),
            t == chars@,
            f <= 255,
            rr == r % 256,
            rank_overflows(r as nat, t, 0) == rank_overflows(r as nat, t.skip(i as int), f as nat),
        decreases chars.len() - i,
    {
        let c = chars[i];
        proof {
            assert(t.skip(i as int)[0] == c);
            assert(t.skip(i as int).drop_first() =~= t.skip(i + 1));
        }
        if is_digit(c) {
            let d = (c as u32) - 48;
            if f + d > 255 {
                return true;
            }
            f = f + d;
        } else if rr > 7 {
            return true;
        } else if crate::board::piece::ColoredPiece::from_fen(c).is_err() {
            return false;
        } else {
            let idx = (7 - rr as u32) * 8 + f;
            if idx >= 64 {
                return true;
            }
            f = f + 1;
        }
        i = i + 1;
    }
    proof {
        assert(t.skip(i as int).len() == 0);
    }
    false
}

/// Whether every character of the rank field `chars` is a digit or a piece letter.
fn rank_chars_ok_of(chars: &Vec<char>) -> (b: bool)
    ensures
        b == rank_chars_ok(chars@),
{
    let mut i: usize = 0;
    while i < chars.len()
        invariant
            i <= chars.len(),
            forall|k: int| 0 <= k < i ==> is_digit_spec(#[trigger] chars@[k]) || is_fen_char(chars@[k]),
        decreases chars.len() - i,
    {
        let c = chars[i];
        if !is_digit(c) && crate::board::piece::ColoredPiece::from_fen(c).is_err() {
            return false;
        }
        i = i + 1;
    }
    true
}

/// Whether the castling field `chars` reads without fault.
fn castling_reads(chars: &Vec<char>) -> (b: bool)
    ensures
        b == (scan_castling((false, false, false, false), chars@) is Ok),
{
    let ghost t = chars@;
    let ghost mut flags: (bool, bool, bool, bool) = (false, false, false, false);
    let mut i: usize = 0;
    proof {
        assert(t.skip(0) =~= t);
    }
    while i < chars.len()
        invariant
            i <= chars.len(),
            t == chars@,
            scan_castling((false, false, false, false), t) == scan_castling(flags, t.skip(i as int)),
        decreases chars.len() - i,
    {
        let c = chars[i];
        proof {
            assert(t.skip(i as int)[0] == c);
            assert(t.skip(i as int).drop_first() =~= t.skip(i + 1));
        }
        if c == '-' {
            return true;
        }
        if crate::board::piece::ColoredPiece::from_fen(c).is_err() {
            return false;
        }
        if c == 'q' {
            proof {
                flags = (flags.0, flags.1, flags.2, true);
            }
        } else if c == 'Q' {
            proof {
                flags = (flags.0, true, flags.2, flags.3);
            }
        } else if c == 'k' {
            proof {
                flags = (flags.0, flags.1, true, flags.3);
            }
        } else if c == 'K' {
            proof {
                flags = (true, flags.1, flags.2, flags.3);
            }
        } else {
            return false;
        }
        i = i + 1;
    }
    proof {
        assert(t.skip(i as int).len() == 0);
    }
    true
}

/// Whether reading the en passant field `t` runs out of numbers, White to move when `white`.
fn en_passant_overflow_of(t: &Vec<char>, white: bool) -> (b: bool)
    ensures
        b == en_passant_overflows(t@, if white { Color::White } else { Color::Black }),
{
    if t.len() == 1 && t[0] == '-' {
        proof {
            assert(t@ =~= seq!['-']);
        }
        return false;
    }
    proof {
        if t@ == seq!['-'] {
            assert(t@.len() == 1 && t@[0] == '-');
        }
    }
    if t.len() < 1 {
        return false;
    }
    let file: i64 = ((t[0] as u32) % 256) as i64 - 97;
    if file < 0 {
        return true;
    }
    if t.len() >= 2 && is_digit(t[1]) && (t[1] as u32) >= 49 && (t[1] as u32) <= 56 {
        let rank: i64 = (t[1] as u32) as i64 - 49;
        rank * 8 + file > 255 || (white && rank == 0) || (!white && (rank + 1) * 8 + file > 255) || (white && (rank - 1)
            * 8 + file > 255)
    } else {
        false
    }
}

/// Whether reading `fen` stays on the board: `Board::from_str` may be given it.
pub fn fen_fits(fen: &str) -> (b: bool)
    ensures
        b == !fen_overflows(fen@),
{
    let chars = str_to_chars(fen);
    let parts = split_chars(&chars, ' ');
    let ghost ps = split_spec(fen@, ' ');
    if parts.len() != 6 {
        return true;
    }
    proof {
        assert(ps[0] == parts@[0]@);
        assert(ps[1] == parts@[1]@);
        assert(ps[2] == parts@[2]@);
        assert(ps[3] == parts@[3]@);
    }
    let ranks = split_chars(&parts[0], '/');
    let ghost rs = split_spec(ps[0], '/');
    proof {
        lemma_ranks_overflow_plain(no_pieces(), true, rs, 0);
        assert(rs.skip(0) =~= rs);
    }
    let mut i: usize = 0;
    while i < ranks.len()
        invariant
            i <= ranks.len(),
            views(ranks@) == rs,
            ranks_overflow_plain(rs, 0) == ranks_overflow_plain(rs.skip(i as int), i as nat),
            forall|k: int| 0 <= k < i ==> rank_chars_ok(#[trigger] rs[k]),
            ranks_overflow(no_pieces(), true, rs, 0) == ranks_overflow_plain(rs, 0),
            (scan_ranks(no_pieces(), true, rs, 0) is Ok) == (forall|k: int| 0 <= k < rs.len() ==> rank_chars_ok(#[trigger] rs[k])),
            ps == split_spec(fen@, ' '),
            views(parts@) == ps,
            parts.len() == 6,
            rs == split_spec(ps[0], '/'),
        decreases ranks.len() - i,
    {
        proof {
            assert(rs[i as int] == ranks@[i as int]@);
            assert(rs.skip(i as int)[0] == rs[i as int]);
            assert(rs.skip(i as int).drop_first() =~= rs.skip(i + 1));
        }
        if rank_overflow_of(i, &ranks[i]) {
            proof {
                assert(ranks_overflow_plain(rs.skip(i as int), i as nat));
                assert(ranks_overflow(no_pieces(), true, rs, 0));
            }
            return false;
        }
        if !rank_chars_ok_of(&ranks[i]) {
            proof {
                assert(!ranks_overflow_plain(rs.skip(i as int), i as nat));
                assert(!rank_chars_ok(rs[i as int]));
                assert(!(scan_ranks(no_pieces(), true, rs, 0) is Ok));
            }
            return true;
        }
        i = i + 1;
    }
    proof {
        assert(rs.skip(i as int).len() == 0);
    }
    let white = parts[1].len() == 1 && parts[1][0] == 'w';
    let black = parts[1].len() == 1 && parts[1][0] == 'b';
    proof {
        if white {
            assert(ps[1] =~= seq!['w']);
        }
        if black {
            assert(ps[1] =~= seq!['b']);
        }
        if ps[1] == seq!['w'] || ps[1] == seq!['b'] {
            assert(ps[1].len() == 1);
        }
    }
    if !white && !black {
        return true;
    }
    if !castling_reads(&parts[2]) {
        return true;
    }
    !en_passant_overflow_of(&parts[3], white)
}

} // verus!
