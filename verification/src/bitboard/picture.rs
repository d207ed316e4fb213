use vstd::prelude::*;

use crate::text::chars_to_string;

use super::Bitboard;

verus! {

/// The digit naming rank `rank` (counted from 0), `1` to `8`.
pub open spec fn rank_digit(rank: int) -> char {
    ('1' as u8 + rank) as char
}

/// The first `n` files of rank `rank`: a space, then `1` for a square of `b`, `.` otherwise.
pub open spec fn rank_marks(b: Bitboard, rank: int, n: nat) -> Seq<char>
    decreases n,
{
    if n == 0 {
        Seq::empty()
    } else {
        rank_marks(b, rank, (n - 1) as nat) + seq![' ', if b.has(rank * 8 + n - 1) { '1' } else { '.' }]
    }
}

/// The `n` top ranks of the picture of `b`, from rank 8 down: two spaces, the rank's digit,
/// its marks and a line break each.
pub open spec fn rank_lines(b: Bitboard, n: nat) -> Seq<char>
    decreases n,
{
    if n == 0 {
        Seq::empty()
    } else {
        let rank = 8 - n;
        rank_lines(b, (n - 1) as nat) + seq![' ', ' ', rank_digit(rank)] + rank_marks(b, rank, 8) + seq!['\n']
    }
}

/// The line under the picture naming the files.
pub open spec fn file_letters() -> Seq<char> {
    seq![' ', ' ', ' ', ' ', 'a', ' ', 'b', ' ', 'c', ' ', 'd', ' ', 'e', ' ', 'f', ' ', 'g', ' ', 'h', '\n']
}

/// The picture of `b`: its eight ranks from the eighth down, then the file letters.
pub open spec fn bitboard_picture(b: Bitboard) -> Seq<char> {
    rank_lines(b, 8) + file_letters()
}

/// Appends the line naming the files.
pub fn push_file_letters(out: &mut Vec<char>)
    ensures
        final(out)@ == old(out)@ + file_letters(),
{
    let ghost start = out@;
    out.push(' ');
    out.push(' ');
    out.push(' ');
    out.push(' ');
    let mut letter: u8 = 0;
    while letter < 8
        invariant
            letter <= 8,
            out@ == start + seq![' ', ' ', ' ', ' '] + file_letters().subrange(4, 4 + 2 * letter as int),
        decreases 8 - letter,
    {
        out.push(('a' as u8 + letter) as char);
        if letter < 7 {
            out.push(' ');
        } else {
            out.push('\n');
        }
        proof {
            assert(out@ == start + seq![' ', ' ', ' ', ' '] + file_letters().subrange(4, 4 + 2 * (letter + 1) as int));
        }
        letter = letter + 1;
    }
    proof {
        assert(file_letters() == seq![' ', ' ', ' ', ' '] + file_letters().subrange(4, 20));
    }
}

impl Bitboard {
    /// The board as eight lines of marks, rank 8 first, each square `1` when it is in the set
    /// and `.` otherwise, with the rank digits on the left and the file letters below.
    pub fn to_string(&self) -> (r: String)
        ensures
            r@ == bitboard_picture(*self),
    {
        let mut out: Vec<char> = Vec::new();
        let mut n: u8 = 0;
        while n < 8
            invariant
                n <= 8,
                out@ == rank_lines(*self, n as nat),
            decreases 8 - n,
        {
            let rank: u8 = 7 - n;
            out.push(' ');
            out.push(' ');
            out.push(('1' as u8 + rank) as char);
            let ghost line_start = out@;
            let mut file: u8 = 0;
            while file < 8
                invariant
                    file <= 8,
                    rank < 8,
                    out@ == line_start + rank_marks(*self, rank as int, file as nat),
                decreases 8 - file,
            {
                let is_set = self.is_set(Bitboard::square(rank, file));
                proof {
                    let j = rank * 8 + file;
                    crate::bits::lemma_bit_single(j as u64, j as u64);
                    if is_set {
                        let i = choose|i: int| self.has(i) && Bitboard(crate::bits::single(j as u64)).has(i);
                        crate::bits::lemma_bit_single(j as u64, i as u64);
                    }
                }
                out.push(' ');
                if is_set {
                    out.push('1');
                } else {
                    out.push('.');
                }
                file = file + 1;
            }
            out.push('\n');
            n = n + 1;
        }
        push_file_letters(&mut out);
        chars_to_string(&out)
    }
}

} // verus!
