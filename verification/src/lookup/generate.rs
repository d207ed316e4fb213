use vstd::prelude::*;

use crate::bits::{bit_set, bits_where, lemma_bit_zero, lemma_bits_where};
use crate::board::color::Color;
use crate::text::push_str;

use super::magic::{counts_fit, generate_magic, good_magics, magic_stopped, slider_tables};
use super::utils::Direction;
use super::{
    add_target, between_target, direction_of, file_diff, forward, get_direction, king_moves,
    king_target, knight_moves, knight_target, on_board, on_ray, pawn_attack_target, pawn_attacks,
    rank_diff, ray, squares_between,
};

verus! {

/// The character of the hexadecimal digit `d`, in upper case.
pub open spec fn hex_digit(d: nat) -> char {
    if d < 10 {
        ((d + 48) as u8) as char
    } else {
        ((d + 55) as u8) as char
    }
}

/// The hexadecimal digits of `n`, most significant first, in upper case.
pub open spec fn hex(n: nat) -> Seq<char>
    decreases n,
{
    if n < 16 {
        seq![hex_digit(n)]
    } else {
        hex(n / 16).push(hex_digit(n % 16))
    }
}

/// Appends the hexadecimal digits of `n`.
pub fn push_hex(out: &mut Vec<char>, n: u64)
    ensures
        final(out)@ == old(out)@ + hex(n as nat),
    decreases n,
{
    if n >= 16 {
        push_hex(out, n / 16);
    }
    let d = (n % 16) as u8;
    if d < 10 {
        out.push((48u8 + d) as char);
    } else {
        out.push((55u8 + d) as char);
    }
    proof {
        if n < 16 {
            assert(hex(n as nat) == seq![hex_digit(n as nat)]);
        }
    }
}

/// The entries of a table, eight to a line, each written in hexadecimal after `prefix` and
/// followed by a comma.
pub open spec fn table_body(v: Seq<u64>, prefix: Seq<char>) -> Seq<char>
    decreases v.len(),
{
    if v.len() == 0 {
        seq![]
    } else {
        table_body(v.drop_last(), prefix) + (if (v.len() - 1) % 8 == 0 {
            "\n\t"@
        } else {
            seq![]
        }) + prefix + hex(v.last() as nat) + ", "@
    }
}

/// The entries of a table row, each written in hexadecimal after `prefix` and followed by a
/// comma.
pub open spec fn row_body(v: Seq<u64>, prefix: Seq<char>) -> Seq<char>
    decreases v.len(),
{
    if v.len() == 0 {
        seq![]
    } else {
        row_body(v.drop_last(), prefix) + prefix + hex(v.last() as nat) + ", "@
    }
}

pub(crate) fn push_table(out: &mut Vec<char>, v: &Vec<u64>, prefix: &str)
    ensures
        final(out)@ == old(out)@ + table_body(v@, prefix@),
{
    let ghost start = out@;
    let mut i: usize = 0;
    proof {
        assert(v@.subrange(0, 0) =~= Seq::<u64>::empty());
    }
    while i < v.len()
        invariant
            i <= v.len(),
            out@ == start + table_body(v@.subrange(0, i as int), prefix@),
        decreases v.len() - i,
    {
        let ghost w = v@.subrange(0, i + 1);
        proof {
            assert(w.drop_last() =~= v@.subrange(0, i as int));
        }
        let ghost before = out@;
        if i % 8 == 0 {
            push_str(out, "\n\t");
        }
        push_str(out, prefix);
        push_hex(out, v[i]);
        push_str(out, ", ");
        proof {
            assert(out@ =~= before + ((if (w.len() - 1) % 8 == 0 {
                "\n\t"@
            } else {
                seq![]
            }) + prefix@ + hex(w.last() as nat) + ", "@));
        }
        i = i + 1;
    }
    proof {
        assert(v@.subrange(0, v.len() as int) =~= v@);
    }
}

pub(crate) fn push_row(out: &mut Vec<char>, v: &Vec<u64>, prefix: &str)
    ensures
        final(out)@ == old(out)@ + row_body(v@, prefix@),
{
    let ghost start = out@;
    let mut i: usize = 0;
    proof {
        assert(v@.subrange(0, 0) =~= Seq::<u64>::empty());
    }
    while i < v.len()
        invariant
            i <= v.len(),
            out@ == start + row_body(v@.subrange(0, i as int), prefix@),
        decreases v.len() - i,
    {
        let ghost w = v@.subrange(0, i + 1);
        proof {
            assert(w.drop_last() =~= v@.subrange(0, i as int));
        }
        let ghost before = out@;
        push_str(out, prefix);
        push_hex(out, v[i]);
        push_str(out, ", ");
        proof {
            assert(out@ =~= before + (prefix@ + hex(w.last() as nat) + ", "@));
        }
        i = i + 1;
    }
    proof {
        assert(v@.subrange(0, v.len() as int) =~= v@);
    }
}

/// The empty string literal holds no character.
pub(crate) proof fn lemma_empty_text()
    ensures
        ""@ == Seq::<char>::empty(),
{
    reveal_strlit("");
    assert(""@ =~= Seq::<char>::empty());
}

/// The kinds of step tables.
pub enum StepKind {
    King,
    Knight,
    PawnStep(Color),
    PawnAttack(Color),
}

/// `j` is one step forward from `i` for a pawn of `color`.
pub open spec fn pawn_step_target(color: Color, i: int, j: int) -> bool {
    &&& on_board(i) && on_board(j)
    &&& file_diff(i, j) == 0
    &&& rank_diff(i, j) == forward(color)
}

pub open spec fn step_target(k: StepKind, i: int, j: int) -> bool {
    match k {
        StepKind::King => king_target(i, j),
        StepKind::Knight => knight_target(i, j),
        StepKind::PawnStep(c) => pawn_step_target(c, i, j),
        StepKind::PawnAttack(c) => pawn_attack_target(c, i, j),
    }
}

/// The entry for square `i` of a step table.
pub open spec fn step_word(k: StepKind, i: int) -> u64 {
    bits_where(|j: int| step_target(k, i, j))
}

/// A step table: for each square, the squares reached in one step.
pub open spec fn step_table(k: StepKind) -> Seq<u64> {
    Seq::new(64, |i: int| step_word(k, i))
}

fn step_moves(k: &StepKind, i: u8) -> (r: u64)
    requires
        i < 64,
    ensures
        r == step_word(*k, i as int),
{
    let r = match k {
        StepKind::King => king_moves(i),
        StepKind::Knight => knight_moves(i),
        StepKind::PawnStep(c) => {
            proof {
                assert forall|j: int| on_board(j) implies !#[trigger] bit_set(0u64, j as u64) by {
                    lemma_bit_zero(j as u64);
                }
            }
            match c {
                Color::White => add_target(0, i, 1, 0),
                Color::Black => add_target(0, i, -1, 0),
            }
        },
        StepKind::PawnAttack(c) => pawn_attacks(*c, i),
    };
    proof {
        assert forall|j: u64| j < 64 implies (#[trigger] bit_set(r, j) == step_target(*k, i as int, j as int)) by {
            let ji = j as int;
            assert(on_board(ji));
            assert(bit_set(r, ji as u64) == step_target(*k, i as int, ji));
        }
        lemma_bits_where(r, |j: int| step_target(*k, i as int, j));
    }
    r
}

fn step_table_of(k: &StepKind) -> (r: Vec<u64>)
    ensures
        r@ == step_table(*k),
{
    let mut v: Vec<u64> = Vec::new();
    let mut i: u8 = 0;
    while i < 64
        invariant
            i <= 64,
            v.len() == i,
            forall|m: int| 0 <= m < i ==> v@[m] == step_word(*k, m),
        decreases 64 - i,
    {
        let w = step_moves(k, i);
        v.push(w);
        i = i + 1;
    }
    proof {
        assert(v@ =~= step_table(*k));
    }
    v
}

/// The declaration of a table of one entry per square.
pub open spec fn table_decl(header: Seq<char>, v: Seq<u64>) -> Seq<char> {
    "\n"@ + "#[rustfmt::skip]\n"@ + header + table_body(v, seq![]) + "\n];\n"@
}

/// The declaration of a pair of tables, the black one first.
pub open spec fn pair_decl(header: Seq<char>, black: Seq<u64>, white: Seq<u64>) -> Seq<char> {
    "\n"@ + "#[rustfmt::skip]\n"@ + header + table_body(black, seq![]) + "\n], ["@ + table_body(
        white,
        seq![],
    ) + "\n]];\n"@
}

fn write_table(dest: &mut Vec<char>, header: &str, v: &Vec<u64>)
    ensures
        final(dest)@ == old(dest)@ + table_decl(header@, v@),
{
    proof {
        lemma_empty_text();
    }
    let ghost start = dest@;
    push_str(dest, "\n");
    push_str(dest, "#[rustfmt::skip]\n");
    push_str(dest, header);
    push_table(dest, v, "");
    push_str(dest, "\n];\n");
    proof {
        assert(dest@ =~= start + table_decl(header@, v@));
    }
}

fn write_pair(dest: &mut Vec<char>, header: &str, black: &Vec<u64>, white: &Vec<u64>)
    ensures
        final(dest)@ == old(dest)@ + pair_decl(header@, black@, white@),
{
    proof {
        lemma_empty_text();
    }
    let ghost start = dest@;
    push_str(dest, "\n");
    push_str(dest, "#[rustfmt::skip]\n");
    push_str(dest, header);
    push_table(dest, black, "");
    push_str(dest, "\n], [");
    push_table(dest, white, "");
    push_str(dest, "\n]];\n");
    proof {
        assert(dest@ =~= start + pair_decl(header@, black@, white@));
    }
}

/// Writes the table of the squares a king steps to.
pub fn generate_king_moves(dest: &mut Vec<char>)
    ensures
        final(dest)@ == old(dest)@ + table_decl(
            "pub const KING_MOVES: [u64; Board::SIZE] = ["@,
            step_table(StepKind::King),
        ),
{
    let v = step_table_of(&StepKind::King);
    write_table(dest, "pub const KING_MOVES: [u64; Board::SIZE] = [", &v);
}

/// Writes the table of the squares a knight jumps to.
pub fn generate_knight_moves(dest: &mut Vec<char>)
    ensures
        final(dest)@ == old(dest)@ + table_decl(
            "pub const KNIGHT_MOVES: [u64; Board::SIZE] = ["@,
            step_table(StepKind::Knight),
        ),
{
    let v = step_table_of(&StepKind::Knight);
    write_table(dest, "pub const KNIGHT_MOVES: [u64; Board::SIZE] = [", &v);
}

/// Writes the tables of the square one step ahead of a pawn, black then white.
pub fn generate_pawn_pushes(dest: &mut Vec<char>)
    ensures
        final(dest)@ == old(dest)@ + pair_decl(
            "pub const PAWN_PUSHES: [[u64; Board::SIZE]; Color::COUNT] = [["@,
            step_table(StepKind::PawnStep(Color::Black)),
            step_table(StepKind::PawnStep(Color::White)),
        ),
{
    let black = step_table_of(&StepKind::PawnStep(Color::Black));
    let white = step_table_of(&StepKind::PawnStep(Color::White));
    write_pair(dest, "pub const PAWN_PUSHES: [[u64; Board::SIZE]; Color::COUNT] = [[", &black, &white);
}

/// Writes the tables of the squares a pawn attacks, black then white.
pub fn generate_pawn_attacks(dest: &mut Vec<char>)
    ensures
        final(dest)@ == old(dest)@ + pair_decl(
            "pub const PAWN_ATTACKS: [[u64; Board::SIZE]; Color::COUNT] = [["@,
            step_table(StepKind::PawnAttack(Color::Black)),
            step_table(StepKind::PawnAttack(Color::White)),
        ),
{
    let black = step_table_of(&StepKind::PawnAttack(Color::Black));
    let white = step_table_of(&StepKind::PawnAttack(Color::White));
    write_pair(dest, "pub const PAWN_ATTACKS: [[u64; Board::SIZE]; Color::COUNT] = [[", &black, &white);
}

/// The squares strictly between `from` and `to`, as a word.
pub open spec fn between_word(from: int, to: int) -> u64 {
    bits_where(|k: int| between_target(from, to, k))
}

/// The row of the between table for `from`.
pub open spec fn between_row(from: int) -> Seq<u64> {
    Seq::new(64, |to: int| between_word(from, to))
}

/// The rows of the between table for the squares below `n`.
pub open spec fn between_rows(n: nat) -> Seq<char>
    decreases n,
{
    if n == 0 {
        seq![]
    } else {
        between_rows((n - 1) as nat) + "\n\t[ "@ + row_body(between_row(n - 1), seq![]) + "],"@
    }
}

fn between_row_of(from: u8) -> (r: Vec<u64>)
    requires
        from < 64,
    ensures
        r@ == between_row(from as int),
{
    let mut v: Vec<u64> = Vec::new();
    let mut to: u8 = 0;
    while to < 64
        invariant
            from < 64,
            to <= 64,
            v.len() == to,
            forall|m: int| 0 <= m < to ==> v@[m] == between_word(from as int, m),
        decreases 64 - to,
    {
        let w = squares_between(from, to);
        proof {
            assert forall|k: u64| k < 64 implies (#[trigger] bit_set(w, k) == between_target(from as int, to as int, k as int)) by {
                let ki = k as int;
                assert(on_board(ki));
                assert(bit_set(w, ki as u64) == between_target(from as int, to as int, ki));
            }
            lemma_bits_where(w, |k: int| between_target(from as int, to as int, k));
        }
        v.push(w);
        to = to + 1;
    }
    proof {
        assert(v@ =~= between_row(from as int));
    }
    v
}

/// Writes the table of the squares between two squares.
pub fn generate_between(dest: &mut Vec<char>)
    ensures
        final(dest)@ == old(dest)@ + "\n"@ + "#[rustfmt::skip]\n"@
            + "pub const BETWEEN_LOOKUP: [[u64; Board::SIZE]; Board::SIZE] = ["@ + between_rows(64)
            + "\n];\n"@,
{
    proof {
        lemma_empty_text();
    }
    let ghost start = dest@;
    push_str(dest, "\n");
    push_str(dest, "#[rustfmt::skip]\n");
    push_str(dest, "pub const BETWEEN_LOOKUP: [[u64; Board::SIZE]; Board::SIZE] = [");
    let ghost head = dest@;
    let mut from: u8 = 0;
    while from < 64
        invariant
            from <= 64,
            dest@ == head + between_rows(from as nat),
        decreases 64 - from,
    {
        let row = between_row_of(from);
        let ghost before = dest@;
        push_str(dest, "\n\t[ ");
        push_row(dest, &row, "");
        proof {
            lemma_empty_text();
        }
        push_str(dest, "],");
        proof {
            assert(dest@ =~= before + ("\n\t[ "@ + row_body(between_row(from as int), seq![]) + "],"@));
        }
        from = from + 1;
    }
    push_str(dest, "\n];\n");
    proof {
        assert(dest@ =~= start + "\n"@ + "#[rustfmt::skip]\n"@
            + "pub const BETWEEN_LOOKUP: [[u64; Board::SIZE]; Board::SIZE] = ["@ + between_rows(64)
            + "\n];\n"@);
    }
}

/// The name of a direction.
pub open spec fn direction_name(d: Direction) -> Seq<char> {
    match d {
        Direction::NorthWest => "NorthWest"@,
        Direction::North => "North"@,
        Direction::NorthEast => "NorthEast"@,
        Direction::West => "West"@,
        Direction::East => "East"@,
        Direction::SouthWest => "SouthWest"@,
        Direction::South => "South"@,
        Direction::SouthEast => "SouthEast"@,
        Direction::Nowhere => "Nowhere"@,
    }
}

fn push_direction_name(out: &mut Vec<char>, d: Direction)
    ensures
        final(out)@ == old(out)@ + direction_name(d),
{
    match d {
        Direction::NorthWest => push_str(out, "NorthWest"),
        Direction::North => push_str(out, "North"),
        Direction::NorthEast => push_str(out, "NorthEast"),
        Direction::West => push_str(out, "West"),
        Direction::East => push_str(out, "East"),
        Direction::SouthWest => push_str(out, "SouthWest"),
        Direction::South => push_str(out, "South"),
        Direction::SouthEast => push_str(out, "SouthEast"),
        Direction::Nowhere => push_str(out, "Nowhere"),
    }
}

/// The cells of the direction table's row for `from`, for the squares below `n`.
pub open spec fn direction_cells(from: int, n: nat) -> Seq<char>
    decreases n,
{
    if n == 0 {
        seq![]
    } else {
        direction_cells(from, (n - 1) as nat) + "Direction::"@ + direction_name(
            direction_of(from, n - 1),
        ) + ", "@
    }
}

/// The rows of the direction table for the squares below `n`.
pub open spec fn direction_rows(n: nat) -> Seq<char>
    decreases n,
{
    if n == 0 {
        seq![]
    } else {
        direction_rows((n - 1) as nat) + "\n\t[ "@ + direction_cells(n - 1, 64) + "],"@
    }
}

/// Writes the table of the direction from one square to another.
pub fn generate_direction(dest: &mut Vec<char>)
    ensures
        final(dest)@ == old(dest)@ + "\n"@ + "#[rustfmt::skip]\n"@
            + "pub const DIRECTION_LOOKUP: [[Direction; Board::SIZE]; Board::SIZE] = ["@
            + direction_rows(64) + "\n];\n"@,
{
    let ghost start = dest@;
    push_str(dest, "\n");
    push_str(dest, "#[rustfmt::skip]\n");
    push_str(dest, "pub const DIRECTION_LOOKUP: [[Direction; Board::SIZE]; Board::SIZE] = [");
    let ghost head = dest@;
    let mut from: u8 = 0;
    while from < 64
        invariant
            from <= 64,
            dest@ == head + direction_rows(from as nat),
        decreases 64 - from,
    {
        let ghost before = dest@;
        push_str(dest, "\n\t[ ");
        let ghost row_start = dest@;
        let mut to: u8 = 0;
        while to < 64
            invariant
                from < 64,
                to <= 64,
                dest@ == row_start + direction_cells(from as int, to as nat),
            decreases 64 - to,
        {
            let ghost cell_start = dest@;
            push_str(dest, "Direction::");
            let d = get_direction(from, to);
            push_direction_name(dest, d);
            push_str(dest, ", ");
            proof {
                assert(dest@ =~= cell_start + ("Direction::"@ + direction_name(direction_of(from as int, to as int)) + ", "@));
            }
            to = to + 1;
        }
        push_str(dest, "],");
        proof {
            assert(dest@ =~= before + ("\n\t[ "@ + direction_cells(from as int, 64) + "],"@));
        }
        from = from + 1;
    }
    push_str(dest, "\n];\n");
    proof {
        assert(dest@ =~= start + "\n"@ + "#[rustfmt::skip]\n"@
            + "pub const DIRECTION_LOOKUP: [[Direction; Board::SIZE]; Board::SIZE] = ["@
            + direction_rows(64) + "\n];\n"@);
    }
}

/// The direction with index `k` (below 8).
pub open spec fn direction_at(k: int) -> Direction {
    if k == 0 {
        Direction::NorthWest
    } else if k == 1 {
        Direction::North
    } else if k == 2 {
        Direction::NorthEast
    } else if k == 3 {
        Direction::West
    } else if k == 4 {
        Direction::East
    } else if k == 5 {
        Direction::SouthWest
    } else if k == 6 {
        Direction::South
    } else {
        Direction::SouthEast
    }
}

fn direction_of_index(k: usize) -> (r: Direction)
    requires
        k < 8,
    ensures
        r == direction_at(k as int),
        r.spec_index() == k,
{
    if k == 0 {
        Direction::NorthWest
    } else if k == 1 {
        Direction::North
    } else if k == 2 {
        Direction::NorthEast
    } else if k == 3 {
        Direction::West
    } else if k == 4 {
        Direction::East
    } else if k == 5 {
        Direction::SouthWest
    } else if k == 6 {
        Direction::South
    } else {
        Direction::SouthEast
    }
}

/// The squares on the ray from `i` in direction `d`, as a word.
pub open spec fn ray_word(i: int, d: Direction) -> u64 {
    bits_where(|j: int| on_ray(i, d, j))
}

/// The rays from square `i`, one per direction, in the order of the directions' indices.
pub open spec fn ray_row(i: int) -> Seq<u64> {
    Seq::new(8, |k: int| ray_word(i, direction_at(k)))
}

/// The rows of the ray table for the squares below `n`.
pub open spec fn ray_rows(n: nat) -> Seq<char>
    decreases n,
{
    if n == 0 {
        seq![]
    } else {
        ray_rows((n - 1) as nat) + "\t[ "@ + row_body(ray_row(n - 1), seq![]) + "],\n"@
    }
}

fn ray_row_of(i: u8) -> (r: Vec<u64>)
    requires
        i < 64,
    ensures
        r@ == ray_row(i as int),
{
    let mut v: Vec<u64> = Vec::new();
    let mut k: usize = 0;
    while k < 8
        invariant
            i < 64,
            k <= 8,
            v.len() == k,
            forall|m: int| 0 <= m < k ==> v@[m] == ray_word(i as int, direction_at(m)),
        decreases 8 - k,
    {
        let d = direction_of_index(k);
        let w = ray(i, d);
        proof {
            assert forall|j: u64| j < 64 implies (#[trigger] bit_set(w, j) == on_ray(i as int, d, j as int)) by {
                let ji = j as int;
                assert(on_board(ji));
                assert(bit_set(w, ji as u64) == on_ray(i as int, d, ji));
            }
            lemma_bits_where(w, |j: int| on_ray(i as int, d, j));
        }
        v.push(w);
        k = k + 1;
    }
    proof {
        assert(v@ =~= ray_row(i as int));
    }
    v
}

/// Writes the table of the rays from each square and returns the rays.
pub fn generate_rays(dest: &mut Vec<char>) -> (r: Vec<Vec<u64>>)
    ensures
        final(dest)@ == old(dest)@ + "\n"@ + "#[rustfmt::skip]\n"@
            + "pub const RAYS: [[u64; Direction::COUNT]; Board::SIZE] = [\n"@ + ray_rows(64)
            + "];\n"@,
        r.len() == 64,
        forall|i: int| 0 <= i < 64 ==> #[trigger] r@[i]@ == ray_row(i),
{
    proof {
        lemma_empty_text();
    }
    let ghost start = dest@;
    push_str(dest, "\n");
    push_str(dest, "#[rustfmt::skip]\n");
    push_str(dest, "pub const RAYS: [[u64; Direction::COUNT]; Board::SIZE] = [\n");
    let ghost head = dest@;
    let mut rays: Vec<Vec<u64>> = Vec::new();
    let mut i: u8 = 0;
    while i < 64
        invariant
            i <= 64,
            rays.len() == i,
            forall|m: int| 0 <= m < i ==> #[trigger] rays@[m]@ == ray_row(m),
            dest@ == head + ray_rows(i as nat),
        decreases 64 - i,
    {
        let row = ray_row_of(i);
        let ghost before = dest@;
        push_str(dest, "\t[ ");
        push_row(dest, &row, "");
        proof {
            lemma_empty_text();
        }
        push_str(dest, "],\n");
        proof {
            assert(dest@ =~= before + ("\t[ "@ + row_body(ray_row(i as int), seq![]) + "],\n"@));
        }
        rays.push(row);
        i = i + 1;
    }
    push_str(dest, "];\n");
    proof {
        assert(dest@ =~= start + "\n"@ + "#[rustfmt::skip]\n"@
            + "pub const RAYS: [[u64; Direction::COUNT]; Board::SIZE] = [\n"@ + ray_rows(64)
            + "];\n"@);
    }
    rays
}

/// The index of the direction from square `from_index` to square `to_index`, if the two
/// squares are different and share a rank, a file or a diagonal.
pub fn get_direction_index(from_index: usize, to_index: usize) -> (r: Option<usize>)
    requires
        from_index < 64,
        to_index < 64,
    ensures
        direction_of(from_index as int, to_index as int) == Direction::Nowhere ==> r is None,
        direction_of(from_index as int, to_index as int) != Direction::Nowhere ==> r == Some(
            direction_of(from_index as int, to_index as int).spec_index() as usize,
        ),
{
    let d = get_direction(from_index as u8, to_index as u8);
    if d == Direction::Nowhere {
        None
    } else {
        Some(d.index())
    }
}

/// The imports and the step tables: pawn pushes and attacks, king and knight moves.
pub open spec fn step_tables() -> Seq<char> {
    "use crate::board::{Board, color::Color};\n"@ + "use super::utils::Direction;\n"@ + pair_decl(
        "pub const PAWN_PUSHES: [[u64; Board::SIZE]; Color::COUNT] = [["@,
        step_table(StepKind::PawnStep(Color::Black)),
        step_table(StepKind::PawnStep(Color::White)),
    ) + pair_decl(
        "pub const PAWN_ATTACKS: [[u64; Board::SIZE]; Color::COUNT] = [["@,
        step_table(StepKind::PawnAttack(Color::Black)),
        step_table(StepKind::PawnAttack(Color::White)),
    ) + table_decl("pub const KING_MOVES: [u64; Board::SIZE] = ["@, step_table(StepKind::King))
        + table_decl("pub const KNIGHT_MOVES: [u64; Board::SIZE] = ["@, step_table(StepKind::Knight))
}

/// The line tables: between, direction and rays.
pub open spec fn line_tables() -> Seq<char> {
    ("\n"@ + "#[rustfmt::skip]\n"@ + "pub const BETWEEN_LOOKUP: [[u64; Board::SIZE]; Board::SIZE] = ["@
        + between_rows(64) + "\n];\n"@) + ("\n"@ + "#[rustfmt::skip]\n"@
        + "pub const DIRECTION_LOOKUP: [[Direction; Board::SIZE]; Board::SIZE] = ["@
        + direction_rows(64) + "\n];\n"@) + ("\n"@ + "#[rustfmt::skip]\n"@
        + "pub const RAYS: [[u64; Direction::COUNT]; Board::SIZE] = [\n"@ + ray_rows(64) + "];\n"@)
}

fn write_step_tables(dest: &mut Vec<char>)
    ensures
        final(dest)@ == old(dest)@ + step_tables(),
{
    let ghost start = dest@;
    push_str(dest, "use crate::board::{Board, color::Color};\n");
    push_str(dest, "use super::utils::Direction;\n");
    let ghost x1 = "use crate::board::{Board, color::Color};\n"@ + "use super::utils::Direction;\n"@;
    assert(dest@ =~= start + x1);
    generate_pawn_pushes(dest);
    let ghost x2 = x1 + pair_decl(
        "pub const PAWN_PUSHES: [[u64; Board::SIZE]; Color::COUNT] = [["@,
        step_table(StepKind::PawnStep(Color::Black)),
        step_table(StepKind::PawnStep(Color::White)),
    );
    assert(dest@ =~= start + x2);
    generate_pawn_attacks(dest);
    let ghost x3 = x2 + pair_decl(
        "pub const PAWN_ATTACKS: [[u64; Board::SIZE]; Color::COUNT] = [["@,
        step_table(StepKind::PawnAttack(Color::Black)),
        step_table(StepKind::PawnAttack(Color::White)),
    );
    assert(dest@ =~= start + x3);
    generate_king_moves(dest);
    let ghost x4 = x3 + table_decl("pub const KING_MOVES: [u64; Board::SIZE] = ["@, step_table(StepKind::King));
    assert(dest@ =~= start + x4);
    generate_knight_moves(dest);
    let ghost x5 = x4 + table_decl("pub const KNIGHT_MOVES: [u64; Board::SIZE] = ["@, step_table(StepKind::Knight));
    assert(dest@ =~= start + x5);
}

fn write_line_tables(dest: &mut Vec<char>) -> (rays: Vec<Vec<u64>>)
    ensures
        final(dest)@ == old(dest)@ + line_tables(),
        rays.len() == 64,
        forall|i: int| 0 <= i < 64 ==> #[trigger] rays@[i]@ == ray_row(i),
{
    let ghost start = dest@;
    generate_between(dest);
    let ghost x6 = "\n"@ + "#[rustfmt::skip]\n"@
        + "pub const BETWEEN_LOOKUP: [[u64; Board::SIZE]; Board::SIZE] = ["@ + between_rows(64)
        + "\n];\n"@;
    assert(dest@ =~= start + x6);
    generate_direction(dest);
    let ghost x7 = x6 + ("\n"@ + "#[rustfmt::skip]\n"@
        + "pub const DIRECTION_LOOKUP: [[Direction; Board::SIZE]; Board::SIZE] = ["@
        + direction_rows(64) + "\n];\n"@);
    assert(dest@ =~= start + x7);
    let rays = generate_rays(dest);
    let ghost x8 = x7 + ("\n"@ + "#[rustfmt::skip]\n"@
        + "pub const RAYS: [[u64; Direction::COUNT]; Board::SIZE] = [\n"@ + ray_rows(64) + "];\n"@);
    assert(dest@ =~= start + x8);
    rays
}

/// Writes the source text of every lookup table; `false` if the random search for magic
/// multipliers gave up.
pub fn generate_lookup_tables(dest: &mut Vec<char>) -> (r: bool)
    ensures
        r ==> exists|rays: Seq<Vec<u64>>, rm: Seq<u64>, bm: Seq<u64>|
            rays.len() == 64 && (forall|i: int| 0 <= i < 64 ==> #[trigger] rays[i]@ == ray_row(i))
                && counts_fit(rays, false) && counts_fit(rays, true)
                && good_magics(rays, false, rm) && good_magics(rays, true, bm) && final(dest)@
                == old(dest)@ + step_tables() + line_tables() + #[trigger] slider_tables(rays, false, rm)
                + #[trigger] slider_tables(rays, true, bm),
        !r ==> exists|rays: Seq<Vec<u64>>|
            rays.len() == 64 && (forall|i: int| 0 <= i < 64 ==> #[trigger] rays[i]@ == ray_row(i))
                && #[trigger] magic_stopped(rays, old(dest)@ + step_tables() + line_tables(), final(dest)@),
{
    write_step_tables(dest);
    let rays = write_line_tables(dest);
    proof {
        assert forall|i: int| 0 <= i < 64 implies #[trigger] rays@[i]@.len() == 8 by {
            assert(rays@[i]@ == ray_row(i));
        }
    }
    let ghost mid = dest@;
    proof {
        assert(mid =~= old(dest)@ + step_tables() + line_tables());
    }
    if !generate_magic(dest, &rays) {
        proof {
            assert(magic_stopped(rays@, old(dest)@ + step_tables() + line_tables(), dest@));
        }
        return false;
    }
    proof {
        let (rm, bm) = choose|rm: Seq<u64>, bm: Seq<u64>|
            good_magics(rays@, false, rm) && good_magics(rays@, true, bm) && dest@ == mid
                + #[trigger] slider_tables(rays@, false, rm) + #[trigger] slider_tables(rays@, true, bm);
    }
    true
}

} // verus!
