use colored::Colorize;
use vstd::prelude::*;

use crate::bitboard::picture::rank_digit;
use crate::text::{chars_to_string, push_chars, push_str, str_to_chars};

use super::piece::fen_char;
use super::Board;

verus! {

/// The escape sequence that switches to white on black (for a dark square) or to black on
/// white (for a light one).
pub open spec fn paint_start(dark: bool) -> Seq<char> {
    if dark {
        seq!['\x1B', '[', '4', '0', ';', '3', '7', 'm']
    } else {
        seq!['\x1B', '[', '4', '7', ';', '3', '0', 'm']
    }
}

/// The escape sequence that switches colours off again.
pub open spec fn paint_end() -> Seq<char> {
    seq!['\x1B', '[', '0', 'm']
}

/// `out` is `text` as painted for a dark or light square: the text itself when colouring is
/// off, else the text between the colour sequence and the reset.
pub open spec fn painted(text: Seq<char>, dark: bool, out: Seq<char>) -> bool {
    out == text || out == paint_start(dark) + text + paint_end()
}

/// `text` holds no escape character, so no colour sequence can stand inside it.
pub open spec fn no_escape(text: Seq<char>) -> bool {
    forall|i: int| 0 <= i < text.len() ==> text[i] != '\x1B'
}

/// `text` white on black, as the `colored` crate's `Colorize::white` and `on_black` and the
/// `Display` of `ColoredString` write it: the text alone when the crate finds colouring
/// switched off (from the environment or the terminal), else the text between the sequence
/// setting black background and white foreground and the reset sequence. Which of the two
/// comes out is not stated. The text holds no escape character: the crate would otherwise repeat
/// the colour sequence after a reset inside it.
#[verifier::external_body]
fn paint_dark(text: &str) -> (r: String)
    requires
        no_escape(text@),
    ensures
        painted(text@, true, r@),
{
    format!("{}", text.white().on_black())
}

/// `text` black on white, as the `colored` crate's `Colorize::black` and `on_white` and the
/// `Display` of `ColoredString` write it: the text alone when colouring is switched off,
/// else the text between the sequence setting white background and black foreground and the
/// reset sequence. Which of the two comes out is not stated. The text holds no escape
/// character, as for `paint_dark`.
#[verifier::external_body]
fn paint_light(text: &str) -> (r: String)
    requires
        no_escape(text@),
    ensures
        painted(text@, false, r@),
{
    format!("{}", text.black().on_white())
}

/// The square of cell `i` of the picture (eight cells per line, three lines per rank, rank 8
/// first) is dark.
pub open spec fn cell_dark(i: int) -> bool {
    let rank = 7 - (i / 8) / 3;
    let file = i % 8;
    (8 * rank + file + rank) % 2 == 0
}

/// The text of cell `i` of the picture of `board`: seven characters, the middle one the FEN
/// letter of the piece on the square in the middle line of its rank, a space otherwise.
pub open spec fn cell_text(board: Board, i: int) -> Seq<char> {
    let rank = 7 - (i / 8) / 3;
    let file = i % 8;
    let c = match board.pieces@[rank * 8 + file] {
        Some(cp) => if (i / 8) % 3 == 1 {
            fen_char(cp.piece, cp.color)
        } else {
            ' '
        },
        None => ' ',
    };
    seq![' ', ' ', ' ', c, ' ', ' ', ' ']
}

/// The painted cells `cells` belong to the picture of `board`.
pub open spec fn cells_of(board: Board, cells: Seq<Seq<char>>) -> bool {
    &&& cells.len() == 192
    &&& forall|i: int| 0 <= i < 192 ==> painted(cell_text(board, i), cell_dark(i), #[trigger] cells[i])
}

/// The first `f` cells of line `n`, one after the other.
pub open spec fn line_cells(cells: Seq<Seq<char>>, n: int, f: nat) -> Seq<char>
    decreases f,
{
    if f == 0 {
        Seq::empty()
    } else {
        line_cells(cells, n, (f - 1) as nat) + cells[n * 8 + f - 1]
    }
}

/// The left margin of line `n`: the rank's digit and a space on the middle line of a rank,
/// two spaces otherwise.
pub open spec fn line_margin(n: int) -> Seq<char> {
    if n % 3 == 1 {
        seq![rank_digit(7 - n / 3), ' ']
    } else {
        seq![' ', ' ']
    }
}

/// The first `n` lines of the picture.
pub open spec fn picture_lines(cells: Seq<Seq<char>>, n: nat) -> Seq<char>
    decreases n,
{
    if n == 0 {
        Seq::empty()
    } else {
        picture_lines(cells, (n - 1) as nat) + line_margin(n - 1) + line_cells(cells, n - 1, 8) + seq!['\n']
    }
}

/// Lines of cells read only the cells before them.
proof fn lemma_line_cells_prefix(a: Seq<Seq<char>>, b: Seq<Seq<char>>, n: int, f: nat)
    requires
        0 <= n,
        n * 8 + f <= a.len() <= b.len(),
        forall|j: int| 0 <= j < a.len() ==> #[trigger] b[j] == a[j],
    ensures
        line_cells(a, n, f) == line_cells(b, n, f),
    decreases f,
{
    if f > 0 {
        lemma_line_cells_prefix(a, b, n, (f - 1) as nat);
    }
}

/// The first `n` lines read only the cells of those lines.
proof fn lemma_picture_lines_prefix(a: Seq<Seq<char>>, b: Seq<Seq<char>>, n: nat)
    requires
        n * 8 <= a.len() <= b.len(),
        forall|j: int| 0 <= j < a.len() ==> #[trigger] b[j] == a[j],
    ensures
        picture_lines(a, n) == picture_lines(b, n),
    decreases n,
{
    if n > 0 {
        lemma_picture_lines_prefix(a, b, (n - 1) as nat);
        lemma_line_cells_prefix(a, b, n - 1, 8);
    }
}

/// The whole picture: twenty-four lines of cells, then the file letters.
pub open spec fn board_picture(cells: Seq<Seq<char>>) -> Seq<char> {
    picture_lines(cells, 24) + board_file_letters()
}

/// The line naming the first `n` files under the board: a space, then for each file four
/// spaces, its letter and two spaces, the last letter followed by the line break instead.
pub open spec fn file_line(n: nat) -> Seq<char>
    decreases n,
{
    if n == 0 {
        seq![' ']
    } else {
        file_line((n - 1) as nat) + seq![' ', ' ', ' ', ' ', ('a' as u8 + (n - 1)) as char] + if n < 8 {
            seq![' ', ' ']
        } else {
            seq!['\n']
        }
    }
}

/// The line under the board naming the files.
pub open spec fn board_file_letters() -> Seq<char> {
    file_line(8)
}

/// Appends the line naming the files under the board.
fn push_board_file_letters(out: &mut Vec<char>)
    ensures
        final(out)@ == old(out)@ + board_file_letters(),
{
    let ghost start = out@;
    out.push(' ');
    let mut letter: u8 = 0;
    while letter < 8
        invariant
            letter <= 8,
            out@ == start + file_line(letter as nat),
        decreases 8 - letter,
    {
        out.push(' ');
        out.push(' ');
        out.push(' ');
        out.push(' ');
        out.push(('a' as u8 + letter) as char);
        if letter < 7 {
            out.push(' ');
            out.push(' ');
        } else {
            out.push('\n');
        }
        letter = letter + 1;
    }
}

impl<'a> Board<'a> {
    /// The board as a picture in colour: three lines of cells per rank, rank 8 first, each
    /// square seven characters wide and painted white on black or black on white by its
    /// colour, the piece's FEN letter in the middle of the square, the rank digits on the left
    /// and the file letters below.
    pub fn to_string(&self) -> (r: String)
        requires
            self.consistent(),
        ensures
            exists|cells: Seq<Seq<char>>| cells_of(*self, cells) && r@ == board_picture(cells),
    {
        proof {
            crate::board::lemma_consistent_real(*self);
        }
        let mut out: Vec<char> = Vec::new();
        let ghost mut cells: Seq<Seq<char>> = Seq::empty();
        let mut n: u8 = 0;
        while n < 24
            invariant
                n <= 24,
                self.consistent(),
                self.pieces_real(),
                cells.len() == 8 * n,
                forall|i: int| 0 <= i < cells.len() ==> painted(cell_text(*self, i), cell_dark(i), #[trigger] cells[i]),
                out@ == picture_lines(cells, n as nat),
            decreases 24 - n,
        {
            let rank: u8 = 7 - n / 3;
            let size: u8 = n % 3;
            if size == 1 {
                out.push(('1' as u8 + rank) as char);
                out.push(' ');
            } else {
                out.push(' ');
                out.push(' ');
            }
            let ghost line_start = out@;
            let ghost cells_start = cells;
            let mut file: u8 = 0;
            while file < 8
                invariant
                    file <= 8,
                    n < 24,
                    rank == 7 - n / 3,
                    size == n % 3,
                    self.consistent(),
                    self.pieces_real(),
                    cells.len() == 8 * n + file,
                    cells.subrange(0, 8 * n as int) == cells_start,
                    cells_start.len() == 8 * n,
                    forall|i: int| 0 <= i < cells.len() ==> painted(cell_text(*self, i), cell_dark(i), #[trigger] cells[i]),
                    out@ == line_start + line_cells(cells, n as int, file as nat),
                decreases 8 - file,
            {
                let index = 8 * rank + file;
                let color = (index + rank) % 2;
                let square = crate::bitboard::square::Square::by_index(index);
                let piece = match self.get_piece_type(square) {
                    Some(colored_piece) => if size == 1 {
                        colored_piece.to_fen()
                    } else {
                        ' '
                    },
                    None => ' ',
                };
                let mut text: Vec<char> = Vec::new();
                push_str(&mut text, "   ");
                proof {
                    reveal_strlit("   ");
                }
                text.push(piece);
                push_str(&mut text, "   ");
                let cell = chars_to_string(&text);
                proof {
                    assert(cell@ == cell_text(*self, (8 * n + file) as int));
                    assert(no_escape(cell@));
                }
                let painted_cell = if color == 0 {
                    paint_dark(cell.as_str())
                } else {
                    paint_light(cell.as_str())
                };
                let painted_chars = str_to_chars(painted_cell.as_str());
                let ghost i = cells.len() as int;
                let ghost before = cells;
                proof {
                    assert(i == 8 * n + file);
                    assert(i / 8 == n as int);
                    assert(i % 8 == file as int);
                    assert(cell@ == cell_text(*self, i));
                    cells = cells.push(painted_chars@);
                    lemma_line_cells_prefix(before, cells, n as int, file as nat);
                }
                push_chars(&mut out, &painted_chars);
                file = file + 1;
            }
            out.push('\n');
            proof {
                lemma_picture_lines_prefix(cells_start, cells, n as nat);
            }
            n = n + 1;
        }
        push_board_file_letters(&mut out);
        let r = chars_to_string(&out);
        proof {
            assert(cells.len() == 192);
            assert(out@ == picture_lines(cells, 24) + board_file_letters());
            assert(r@ == board_picture(cells));
            assert(cells_of(*self, cells));
        }
        r
    }
}

} // verus!
