pub mod generate;
pub mod magic;
pub mod utils;

use vstd::prelude::*;

use crate::bits::{bit_set, lemma_bit_and, lemma_bit_not, lemma_bit_or, lemma_bit_single, lemma_bit_xor, lemma_bit_zero, single};
use crate::bitboard::square::{file_of, rank_of};
use crate::board::color::Color;

use self::utils::Direction;

verus! {

pub open spec fn abs(x: int) -> int {
    if x < 0 {
        -x
    } else {
        x
    }
}

pub open spec fn max(a: int, b: int) -> int {
    if a < b {
        b
    } else {
        a
    }
}

/// Rank difference from square `i` to square `j`.
pub open spec fn rank_diff(i: int, j: int) -> int {
    rank_of(j) - rank_of(i)
}

/// File difference from square `i` to square `j`.
pub open spec fn file_diff(i: int, j: int) -> int {
    file_of(j) - file_of(i)
}

pub open spec fn on_board(i: int) -> bool {
    0 <= i < 64
}

/// `j` is one king step away from `i`.
pub open spec fn king_target(i: int, j: int) -> bool {
    &&& on_board(i) && on_board(j)
    &&& abs(rank_diff(i, j)) <= 1
    &&& abs(file_diff(i, j)) <= 1
    &&& i != j
}

/// `j` is one knight jump away from `i`.
pub open spec fn knight_target(i: int, j: int) -> bool {
    &&& on_board(i) && on_board(j)
    &&& ((abs(rank_diff(i, j)) == 1 && abs(file_diff(i, j)) == 2) || (abs(rank_diff(i, j)) == 2
        && abs(file_diff(i, j)) == 1))
}

/// Rank direction in which pawns of `color` advance.
pub open spec fn forward(color: Color) -> int {
    if color == Color::White {
        1
    } else {
        -1
    }
}

/// The rank (0-based) on which the pawns of `color` start.
pub open spec fn pawn_start_rank(color: Color) -> int {
    if color == Color::White {
        1
    } else {
        6
    }
}

/// `j` is a square a pawn of `color` on `i` pushes to: one rank ahead, or two from the rank
/// on which its pawns start.
pub open spec fn pawn_push_target(color: Color, i: int, j: int) -> bool {
    &&& on_board(i) && on_board(j)
    &&& file_diff(i, j) == 0
    &&& (rank_diff(i, j) == forward(color) || (rank_diff(i, j) == 2 * forward(color) && rank_of(i)
        == pawn_start_rank(color)))
}

/// `j` is a square a pawn of `color` on `i` attacks.
pub open spec fn pawn_attack_target(color: Color, i: int, j: int) -> bool {
    &&& on_board(i) && on_board(j)
    &&& rank_diff(i, j) == forward(color)
    &&& abs(file_diff(i, j)) == 1
}

/// Square (rank `rj`, file `fj`) lies beyond (rank `ri`, file `fi`) in direction `d`.
pub open spec fn on_ray_rf(ri: int, fi: int, d: Direction, rj: int, fj: int) -> bool {
    match d {
        Direction::North => fj == fi && rj > ri,
        Direction::South => fj == fi && rj < ri,
        Direction::East => rj == ri && fj > fi,
        Direction::West => rj == ri && fj < fi,
        Direction::NorthEast => rj - ri == fj - fi && rj > ri,
        Direction::NorthWest => rj - ri == fi - fj && rj > ri,
        Direction::SouthEast => ri - rj == fj - fi && rj < ri,
        Direction::SouthWest => ri - rj == fi - fj && rj < ri,
        Direction::Nowhere => false,
    }
}

/// Square `j` lies beyond square `i` in direction `d`.
pub open spec fn on_ray(i: int, d: Direction, j: int) -> bool {
    &&& on_board(i) && on_board(j)
    &&& on_ray_rf(rank_of(i), file_of(i), d, rank_of(j), file_of(j))
}

/// The number of king steps from square `i` to square `j`.
pub open spec fn dist(i: int, j: int) -> int {
    dist_rf(rank_of(i), file_of(i), rank_of(j), file_of(j))
}

/// `j` is reached by sliding from `i` in direction `d` when `occupied` holds the pieces: it
/// lies on the ray and no piece stands before it.
pub open spec fn slide_target(i: int, d: Direction, occupied: u64, j: int) -> bool {
    &&& on_ray(i, d, j)
    &&& forall|m: int| #[trigger] on_ray(i, d, m) && dist(i, m) < dist(i, j) ==> !bit_set(occupied, m as u64)
}

/// `j` is attacked by a rook on `i` when `occupied` holds the pieces.
pub open spec fn rook_target(i: int, occupied: u64, j: int) -> bool {
    ||| slide_target(i, Direction::North, occupied, j)
    ||| slide_target(i, Direction::East, occupied, j)
    ||| slide_target(i, Direction::South, occupied, j)
    ||| slide_target(i, Direction::West, occupied, j)
}

/// `j` is attacked by a bishop on `i` when `occupied` holds the pieces.
pub open spec fn bishop_target(i: int, occupied: u64, j: int) -> bool {
    ||| slide_target(i, Direction::NorthEast, occupied, j)
    ||| slide_target(i, Direction::SouthEast, occupied, j)
    ||| slide_target(i, Direction::SouthWest, occupied, j)
    ||| slide_target(i, Direction::NorthWest, occupied, j)
}

/// The direction from square `i` to square `j`: the compass direction when they share a
/// rank, a file or a diagonal, `Nowhere` otherwise (and for equal squares).
pub open spec fn direction_of(i: int, j: int) -> Direction {
    let ri = rank_of(i);
    let fi = file_of(i);
    let rj = rank_of(j);
    let fj = file_of(j);
    let equal_delta = abs(rj - ri) == abs(fj - fi);
    if rj == ri && fj == fi {
        Direction::Nowhere
    } else if rj > ri {
        if fj < fi && equal_delta {
            Direction::NorthWest
        } else if fj == fi {
            Direction::North
        } else if fj > fi && equal_delta {
            Direction::NorthEast
        } else {
            Direction::Nowhere
        }
    } else if rj == ri {
        if fj < fi {
            Direction::West
        } else {
            Direction::East
        }
    } else {
        if fj < fi && equal_delta {
            Direction::SouthWest
        } else if fj == fi {
            Direction::South
        } else if fj > fi && equal_delta {
            Direction::SouthEast
        } else {
            Direction::Nowhere
        }
    }
}

/// `k` lies strictly between squares `i` and `j`, which share a line.
pub open spec fn between_target(i: int, j: int, k: int) -> bool {
    &&& on_ray(i, direction_of(i, j), k)
    &&& dist(i, k) < dist(i, j)
}

/// A square index is its rank times eight plus its file.
pub proof fn lemma_rf_index(j: int)
    requires
        on_board(j),
    ensures
        0 <= rank_of(j) < 8,
        0 <= file_of(j) < 8,
        j == rank_of(j) * 8 + file_of(j),
{
}

/// Rank and file are read back from an index.
pub proof fn lemma_index_rf(r: int, f: int)
    requires
        0 <= r < 8,
        0 <= f < 8,
    ensures
        on_board(r * 8 + f),
        rank_of(r * 8 + f) == r,
        file_of(r * 8 + f) == f,
{
}

/// Adds to `bb` the square reached from `i` by moving `dr` ranks and `df` files, if that
/// square is on the board.
fn add_target(bb: u64, i: u8, dr: i8, df: i8) -> (r: u64)
    requires
        i < 64,
        -2 <= dr <= 2,
        -2 <= df <= 2,
    ensures
        forall|j: int|
            on_board(j) ==> (#[trigger] bit_set(r, j as u64) == (bit_set(bb, j as u64) || (
            rank_diff(i as int, j) == dr && file_diff(i as int, j) == df))),
{
    let rank = (i / 8) as i8 + dr;
    let file = (i % 8) as i8 + df;
    proof {
        lemma_rf_index(i as int);
    }
    if rank < 0 || rank > 7 || file < 0 || file > 7 {
        proof {
            assert forall|j: int| on_board(j) implies !(rank_diff(i as int, j) == dr && file_diff(
                i as int,
                j,
            ) == df) by {
                lemma_rf_index(j);
            }
        }
        return bb;
    }
    let target = (rank as u8) * 8 + (file as u8);
    proof {
        lemma_index_rf(rank as int, file as int);
        assert forall|j: int| on_board(j) implies #[trigger] bit_set(bb | single(target as u64), j as u64)
            == (bit_set(bb, j as u64) || (rank_diff(i as int, j) == dr && file_diff(i as int, j) == df)) by {
            lemma_bit_or(bb, single(target as u64), j as u64);
            lemma_bit_single(target as u64, j as u64);
            lemma_rf_index(j);
        }
    }
    let res = bb | (1u64 << (target as u64));
    assert(res == bb | single(target as u64));
    res
}

/// The squares a king on square `i` moves to.
pub fn king_moves(i: u8) -> (r: u64)
    requires
        i < 64,
    ensures
        forall|j: int| on_board(j) ==> (#[trigger] bit_set(r, j as u64) == king_target(i as int, j)),
{
    let mut bb: u64 = 0;
    proof {
        assert forall|j: int| on_board(j) implies !#[trigger] bit_set(0u64, j as u64) by {
            lemma_bit_zero(j as u64);
        }
    }
    bb = add_target(bb, i, 1, -1);
    bb = add_target(bb, i, 1, 0);
    bb = add_target(bb, i, 1, 1);
    bb = add_target(bb, i, 0, -1);
    bb = add_target(bb, i, 0, 1);
    bb = add_target(bb, i, -1, -1);
    bb = add_target(bb, i, -1, 0);
    bb = add_target(bb, i, -1, 1);
    bb
}

/// The squares a knight on square `i` jumps to.
pub fn knight_moves(i: u8) -> (r: u64)
    requires
        i < 64,
    ensures
        forall|j: int| on_board(j) ==> (#[trigger] bit_set(r, j as u64) == knight_target(i as int, j)),
{
    let mut bb: u64 = 0;
    proof {
        assert forall|j: int| on_board(j) implies !#[trigger] bit_set(0u64, j as u64) by {
            lemma_bit_zero(j as u64);
        }
    }
    bb = add_target(bb, i, 2, -1);
    bb = add_target(bb, i, 2, 1);
    bb = add_target(bb, i, 1, -2);
    bb = add_target(bb, i, 1, 2);
    bb = add_target(bb, i, -1, -2);
    bb = add_target(bb, i, -1, 2);
    bb = add_target(bb, i, -2, -1);
    bb = add_target(bb, i, -2, 1);
    bb
}

/// The squares a pawn of `color` on square `i` pushes to: one step, and two from its starting
/// rank.
pub fn pawn_pushes(color: Color, i: u8) -> (r: u64)
    requires
        i < 64,
    ensures
        forall|j: int| on_board(j) ==> (#[trigger] bit_set(r, j as u64) == pawn_push_target(color, i as int, j)),
{
    proof {
        assert forall|j: int| on_board(j) implies !#[trigger] bit_set(0u64, j as u64) by {
            lemma_bit_zero(j as u64);
        }
    }
    match color {
        Color::White => {
            let bb = add_target(0, i, 1, 0);
            if i / 8 == 1 {
                add_target(bb, i, 2, 0)
            } else {
                bb
            }
        },
        Color::Black => {
            let bb = add_target(0, i, -1, 0);
            if i / 8 == 6 {
                add_target(bb, i, -2, 0)
            } else {
                bb
            }
        },
    }
}

/// The squares a pawn of `color` on square `i` attacks.
pub fn pawn_attacks(color: Color, i: u8) -> (r: u64)
    requires
        i < 64,
    ensures
        forall|j: int| on_board(j) ==> (#[trigger] bit_set(r, j as u64) == pawn_attack_target(color, i as int, j)),
{
    proof {
        assert forall|j: int| on_board(j) implies !#[trigger] bit_set(0u64, j as u64) by {
            lemma_bit_zero(j as u64);
        }
    }
    match color {
        Color::White => {
            let bb = add_target(0, i, 1, -1);
            add_target(bb, i, 1, 1)
        },
        Color::Black => {
            let bb = add_target(0, i, -1, -1);
            add_target(bb, i, -1, 1)
        },
    }
}

pub open spec fn dist_rf(ri: int, fi: int, rj: int, fj: int) -> int {
    max(abs(rj - ri), abs(fj - fi))
}

/// One more step along a ray lands one step further out on the same ray.
proof fn lemma_ray_step(ri: int, fi: int, d: Direction, r: int, f: int)
    requires
        d != Direction::Nowhere,
        on_ray_rf(ri, fi, d, r, f) || (r == ri && f == fi),
    ensures
        on_ray_rf(ri, fi, d, r + d.rank_step(), f + d.file_step()),
        dist_rf(ri, fi, r + d.rank_step(), f + d.file_step()) == dist_rf(ri, fi, r, f) + 1,
{
}

/// A ray holds one point at each distance.
proof fn lemma_ray_unique(ri: int, fi: int, d: Direction, r: int, f: int, rj: int, fj: int)
    requires
        on_ray_rf(ri, fi, d, r, f),
        on_ray_rf(ri, fi, d, rj, fj),
        dist_rf(ri, fi, rj, fj) == dist_rf(ri, fi, r, f),
    ensures
        rj == r && fj == f,
{
}

/// Once a ray has left the board it does not come back.
proof fn lemma_ray_leaves(ri: int, fi: int, d: Direction, r: int, f: int, rj: int, fj: int)
    requires
        0 <= ri < 8,
        0 <= fi < 8,
        on_ray_rf(ri, fi, d, r, f),
        on_ray_rf(ri, fi, d, rj, fj),
        dist_rf(ri, fi, rj, fj) >= dist_rf(ri, fi, r, f),
        !(0 <= r < 8 && 0 <= f < 8),
    ensures
        !(0 <= rj < 8 && 0 <= fj < 8),
{
}

fn rank_step(d: Direction) -> (r: i8)
    ensures
        r == d.rank_step(),
{
    match d {
        Direction::NorthWest | Direction::North | Direction::NorthEast => 1,
        Direction::West | Direction::East | Direction::Nowhere => 0,
        _ => -1,
    }
}

fn file_step(d: Direction) -> (r: i8)
    ensures
        r == d.file_step(),
{
    match d {
        Direction::NorthWest | Direction::West | Direction::SouthWest => -1,
        Direction::North | Direction::South | Direction::Nowhere => 0,
        _ => 1,
    }
}

/// The squares reached by sliding from square `i` in direction `d`: every square up to and
/// including the first one set in `occupied`, or up to the edge of the board.
pub fn slide(i: u8, d: Direction, occupied: u64) -> (r: u64)
    requires
        i < 64,
    ensures
        forall|j: int| on_board(j) ==> (#[trigger] bit_set(r, j as u64) == slide_target(i as int, d, occupied, j)),
{
    proof {
        assert forall|j: int| on_board(j) implies !#[trigger] bit_set(0u64, j as u64) by {
            lemma_bit_zero(j as u64);
        }
    }
    if d == Direction::Nowhere {
        return 0;
    }
    let ghost ri = rank_of(i as int);
    let ghost fi = file_of(i as int);
    let dr = rank_step(d);
    let df = file_step(d);
    let mut rank: i8 = (i / 8) as i8 + dr;
    let mut file: i8 = (i % 8) as i8 + df;
    let mut bb: u64 = 0;
    proof {
        lemma_ray_step(ri, fi, d, ri, fi);
    }
    while 0 <= rank && rank <= 7 && 0 <= file && file <= 7
        invariant
            d != Direction::Nowhere,
            ri == rank_of(i as int),
            fi == file_of(i as int),
            0 <= ri < 8,
            0 <= fi < 8,
            i < 64,
            dr == d.rank_step(),
            df == d.file_step(),
            -1 <= rank <= 8,
            -1 <= file <= 8,
            on_ray_rf(ri, fi, d, rank as int, file as int),
            forall|j: int| on_board(j) ==> (#[trigger] bit_set(bb, j as u64) == (on_ray(i as int, d, j) && dist(i as int, j) < dist_rf(ri, fi, rank as int, file as int))),
            forall|j: int| #[trigger] on_ray(i as int, d, j) && dist(i as int, j) < dist_rf(ri, fi, rank as int, file as int) ==> !bit_set(occupied, j as u64),
        decreases 8 - dist_rf(ri, fi, rank as int, file as int),
    {
        let target = (rank as u8) * 8 + (file as u8);
        let ghost k = dist_rf(ri, fi, rank as int, file as int);
        proof {
            lemma_index_rf(rank as int, file as int);
            assert(target as int == rank as int * 8 + file as int);
        }
        let next = bb | (1u64 << (target as u64));
        proof {
            assert(next == bb | single(target as u64));
            assert forall|j: int| on_board(j) implies #[trigger] bit_set(next, j as u64) == (on_ray(i as int, d, j) && dist(i as int, j) <= k) by {
                lemma_bit_or(bb, single(target as u64), j as u64);
                lemma_bit_single(target as u64, j as u64);
                lemma_rf_index(j);
                if on_ray(i as int, d, j) && dist(i as int, j) == k {
                    lemma_ray_unique(ri, fi, d, rank as int, file as int, rank_of(j), file_of(j));
                }
            }
        }
        bb = next;
        if (occupied >> (target as u64)) & 1 == 1 {
            proof {
                assert(on_ray(i as int, d, target as int));
                assert forall|j: int| on_board(j) implies #[trigger] bit_set(bb, j as u64) == slide_target(i as int, d, occupied, j) by {
                    lemma_rf_index(j);
                    if on_ray(i as int, d, j) && dist(i as int, j) > k {
                        assert(dist(i as int, target as int) == k);
                    }
                    if on_ray(i as int, d, j) && dist(i as int, j) == k {
                        lemma_ray_unique(ri, fi, d, rank as int, file as int, rank_of(j), file_of(j));
                    }
                }
            }
            return bb;
        }
        proof {
            lemma_ray_step(ri, fi, d, rank as int, file as int);
            assert forall|j: int| #[trigger] on_ray(i as int, d, j) && dist(i as int, j) < k + 1 implies !bit_set(occupied, j as u64) by {
                lemma_rf_index(j);
                if dist(i as int, j) == k {
                    lemma_ray_unique(ri, fi, d, rank as int, file as int, rank_of(j), file_of(j));
                }
            }
        }
        rank = rank + dr;
        file = file + df;
    }
    proof {
        assert forall|j: int| on_board(j) implies #[trigger] bit_set(bb, j as u64) == slide_target(i as int, d, occupied, j) by {
            lemma_rf_index(j);
            if on_ray(i as int, d, j) && dist(i as int, j) >= dist_rf(ri, fi, rank as int, file as int) {
                lemma_ray_leaves(ri, fi, d, rank as int, file as int, rank_of(j), file_of(j));
            }
        }
    }
    bb
}

proof fn lemma_zero_empty()
    ensures
        forall|j: int| on_board(j) ==> !#[trigger] bit_set(0u64, j as u64),
{
    assert forall|j: int| on_board(j) implies !#[trigger] bit_set(0u64, j as u64) by {
        lemma_bit_zero(j as u64);
    }
}

/// All squares on the ray from square `i` in direction `d`, up to the edge of the board.
pub fn ray(i: u8, d: Direction) -> (r: u64)
    requires
        i < 64,
    ensures
        forall|j: int| on_board(j) ==> (#[trigger] bit_set(r, j as u64) == on_ray(i as int, d, j)),
{
    let r = slide(i, d, 0);
    proof {
        lemma_zero_empty();
        assert forall|j: int| on_board(j) implies #[trigger] bit_set(r, j as u64) == on_ray(i as int, d, j) by {
            assert(bit_set(r, j as u64) == slide_target(i as int, d, 0, j));
            assert forall|k: int| #[trigger] on_ray(i as int, d, k) implies !bit_set(0u64, k as u64) by {
            }
        }
    }
    r
}

/// Squares a rook on square `i` attacks when `occupied` holds the pieces on the board.
pub fn rook_attacks(i: u8, occupied: u64) -> (r: u64)
    requires
        i < 64,
    ensures
        forall|j: int| on_board(j) ==> (#[trigger] bit_set(r, j as u64) == rook_target(i as int, occupied, j)),
{
    let n = slide(i, Direction::North, occupied);
    let e = slide(i, Direction::East, occupied);
    let so = slide(i, Direction::South, occupied);
    let w = slide(i, Direction::West, occupied);
    proof {
        assert forall|j: int| on_board(j) implies #[trigger] bit_set(n | e | so | w, j as u64) == rook_target(i as int, occupied, j) by {
            lemma_bit_or(n | e | so, w, j as u64);
            lemma_bit_or(n | e, so, j as u64);
            lemma_bit_or(n, e, j as u64);
        }
    }
    n | e | so | w
}

/// Squares a bishop on square `i` attacks when `occupied` holds the pieces on the board.
pub fn bishop_attacks(i: u8, occupied: u64) -> (r: u64)
    requires
        i < 64,
    ensures
        forall|j: int| on_board(j) ==> (#[trigger] bit_set(r, j as u64) == bishop_target(i as int, occupied, j)),
{
    let ne = slide(i, Direction::NorthEast, occupied);
    let se = slide(i, Direction::SouthEast, occupied);
    let sw = slide(i, Direction::SouthWest, occupied);
    let nw = slide(i, Direction::NorthWest, occupied);
    proof {
        assert forall|j: int| on_board(j) implies #[trigger] bit_set(ne | se | sw | nw, j as u64) == bishop_target(i as int, occupied, j) by {
            lemma_bit_or(ne | se | sw, nw, j as u64);
            lemma_bit_or(ne | se, sw, j as u64);
            lemma_bit_or(ne, se, j as u64);
        }
    }
    ne | se | sw | nw
}

/// The direction from square `from` to square `to`: the compass direction when they share a
/// rank, a file or a diagonal, `Nowhere` otherwise (and for equal squares).
pub fn get_direction(from: u8, to: u8) -> (r: Direction)
    requires
        from < 64,
        to < 64,
    ensures
        r == direction_of(from as int, to as int),
{
    let from_rank = (from / 8) as i8;
    let from_file = (from % 8) as i8;
    let to_rank = (to / 8) as i8;
    let to_file = (to % 8) as i8;
    if to_rank == from_rank && to_file == from_file {
        return Direction::Nowhere;
    }
    let rank_diff = to_rank - from_rank;
    let file_diff = to_file - from_file;
    let rank_abs = if rank_diff < 0 { -rank_diff } else { rank_diff };
    let file_abs = if file_diff < 0 { -file_diff } else { file_diff };
    let equal_delta = rank_abs == file_abs;
    if to_rank > from_rank {
        if to_file < from_file && equal_delta {
            Direction::NorthWest
        } else if to_file == from_file {
            Direction::North
        } else if to_file > from_file && equal_delta {
            Direction::NorthEast
        } else {
            Direction::Nowhere
        }
    } else if to_rank == from_rank {
        if to_file < from_file {
            Direction::West
        } else {
            Direction::East
        }
    } else {
        if to_file < from_file && equal_delta {
            Direction::SouthWest
        } else if to_file == from_file {
            Direction::South
        } else if to_file > from_file && equal_delta {
            Direction::SouthEast
        } else {
            Direction::Nowhere
        }
    }
}

/// The squares strictly between `from` and `to` when they share a line; none otherwise.
pub fn squares_between(from: u8, to: u8) -> (r: u64)
    requires
        from < 64,
        to < 64,
    ensures
        forall|k: int| on_board(k) ==> (#[trigger] bit_set(r, k as u64) == between_target(from as int, to as int, k)),
{
    let d = get_direction(from, to);
    if d == Direction::Nowhere {
        proof {
            lemma_zero_empty();
        }
        return 0;
    }
    let target = 1u64 << (to as u64);
    let reach = slide(from, d, target);
    proof {
        assert(target == single(to as u64));
        assert(on_ray(from as int, d, to as int));
        assert forall|k: int| on_board(k) implies #[trigger] bit_set(reach ^ target, k as u64) == between_target(from as int, to as int, k) by {
            lemma_bit_xor(reach, target, k as u64);
            lemma_bit_single(to as u64, k as u64);
            lemma_rf_index(k);
            lemma_rf_index(to as int);
            if on_ray(from as int, d, k) && dist(from as int, k) <= dist(from as int, to as int) {
                assert forall|m: int| #[trigger] on_ray(from as int, d, m) && dist(from as int, m) < dist(from as int, k) implies !bit_set(target, m as u64) by {
                    lemma_bit_single(to as u64, m as u64);
                }
                assert(slide_target(from as int, d, target, k));
            }
            if on_ray(from as int, d, k) && dist(from as int, k) > dist(from as int, to as int) {
                lemma_bit_single(to as u64, to as u64);
            }
            if on_ray(from as int, d, k) && dist(from as int, k) == dist(from as int, to as int) {
                lemma_ray_unique(rank_of(from as int), file_of(from as int), d, rank_of(to as int), file_of(to as int), rank_of(k), file_of(k));
            }
        }
    }
    reach ^ target
}

/// Which squares the edge constants hold.
pub proof fn lemma_edges(j: u64)
    requires
        j < 64,
    ensures
        bit_set(0xFFu64, j) == (j / 8 == 0),
        bit_set(0xFF00000000000000u64, j) == (j / 8 == 7),
        bit_set(0x101010101010101u64, j) == (j % 8 == 0),
        bit_set(0x8080808080808080u64, j) == (j % 8 == 7),
{
    assert(((0xFFu64 >> j) & 1u64 == 1u64) == (j / 8 == 0) && ((0xFF00000000000000u64 >> j) & 1u64
        == 1u64) == (j / 8 == 7) && ((0x101010101010101u64 >> j) & 1u64 == 1u64) == (j % 8 == 0)
        && ((0x8080808080808080u64 >> j) & 1u64 == 1u64) == (j % 8 == 7)) by (bit_vector)
        requires
            j < 64,
    ;
}

/// Edge squares that cannot change what a slider on square `i` attacks: the first rank
/// unless the slider stands on it, and likewise the last rank, the a-file and the h-file.
pub open spec fn off_edge(i: int, j: int) -> bool {
    &&& rank_of(i) >= 1 ==> rank_of(j) != 0
    &&& rank_of(i) <= 6 ==> rank_of(j) != 7
    &&& file_of(i) >= 1 ==> file_of(j) != 0
    &&& file_of(i) <= 6 ==> file_of(j) != 7
}

pub open spec fn rook_mask_target(i: int, j: int) -> bool {
    &&& (on_ray(i, Direction::North, j) || on_ray(i, Direction::East, j) || on_ray(
        i,
        Direction::South,
        j,
    ) || on_ray(i, Direction::West, j))
    &&& off_edge(i, j)
}

pub open spec fn bishop_mask_target(i: int, j: int) -> bool {
    &&& (on_ray(i, Direction::NorthEast, j) || on_ray(i, Direction::NorthWest, j) || on_ray(
        i,
        Direction::SouthEast,
        j,
    ) || on_ray(i, Direction::SouthWest, j))
    &&& off_edge(i, j)
}

/// Removes from `mask` the edge squares that do not matter to a slider on square `i`.
fn trim_edges(i: u8, mask: u64) -> (r: u64)
    requires
        i < 64,
    ensures
        forall|j: int| on_board(j) ==> (#[trigger] bit_set(r, j as u64) == (bit_set(mask, j as u64) && off_edge(i as int, j))),
{
    let mut result = mask;
    let rank = i / 8;
    let file = i % 8;
    if rank >= 1 {
        result = result & !0xFFu64;
    }
    if rank <= 6 {
        result = result & !0xFF00000000000000u64;
    }
    if file >= 1 {
        result = result & !0x101010101010101u64;
    }
    if file <= 6 {
        result = result & !0x8080808080808080u64;
    }
    proof {
        assert forall|j: int| on_board(j) implies #[trigger] bit_set(result, j as u64) == (bit_set(mask, j as u64) && off_edge(i as int, j)) by {
            let m1 = if rank >= 1 { mask & !0xFFu64 } else { mask };
            let m2 = if rank <= 6 { m1 & !0xFF00000000000000u64 } else { m1 };
            let m3 = if file >= 1 { m2 & !0x101010101010101u64 } else { m2 };
            lemma_edges(j as u64);
            lemma_bit_and(mask, !0xFFu64, j as u64);
            lemma_bit_not(0xFFu64, j as u64);
            lemma_bit_and(m1, !0xFF00000000000000u64, j as u64);
            lemma_bit_not(0xFF00000000000000u64, j as u64);
            lemma_bit_and(m2, !0x101010101010101u64, j as u64);
            lemma_bit_not(0x101010101010101u64, j as u64);
            lemma_bit_and(m3, !0x8080808080808080u64, j as u64);
            lemma_bit_not(0x8080808080808080u64, j as u64);
        }
    }
    result
}

/// The relevant-blocker mask of a rook on square `i`.
pub fn rook_mask(i: u8) -> (r: u64)
    requires
        i < 64,
    ensures
        forall|j: int| on_board(j) ==> (#[trigger] bit_set(r, j as u64) == rook_mask_target(i as int, j)),
{
    let n = ray(i, Direction::North);
    let e = ray(i, Direction::East);
    let so = ray(i, Direction::South);
    let w = ray(i, Direction::West);
    let all = n | e | so | w;
    proof {
        assert forall|j: int| on_board(j) implies #[trigger] bit_set(all, j as u64) == (on_ray(i as int, Direction::North, j) || on_ray(i as int, Direction::East, j) || on_ray(i as int, Direction::South, j) || on_ray(i as int, Direction::West, j)) by {
            lemma_bit_or(n | e | so, w, j as u64);
            lemma_bit_or(n | e, so, j as u64);
            lemma_bit_or(n, e, j as u64);
        }
    }
    trim_edges(i, all)
}

/// The relevant-blocker mask of a bishop on square `i`.
pub fn bishop_mask(i: u8) -> (r: u64)
    requires
        i < 64,
    ensures
        forall|j: int| on_board(j) ==> (#[trigger] bit_set(r, j as u64) == bishop_mask_target(i as int, j)),
{
    let ne = ray(i, Direction::NorthEast);
    let nw = ray(i, Direction::NorthWest);
    let se = ray(i, Direction::SouthEast);
    let sw = ray(i, Direction::SouthWest);
    let all = ne | nw | se | sw;
    proof {
        assert forall|j: int| on_board(j) implies #[trigger] bit_set(all, j as u64) == (on_ray(i as int, Direction::NorthEast, j) || on_ray(i as int, Direction::NorthWest, j) || on_ray(i as int, Direction::SouthEast, j) || on_ray(i as int, Direction::SouthWest, j)) by {
            lemma_bit_or(ne | nw | se, sw, j as u64);
            lemma_bit_or(ne | nw, se, j as u64);
            lemma_bit_or(ne, nw, j as u64);
        }
    }
    trim_edges(i, all)
}

} // verus!
