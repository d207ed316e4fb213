use vstd::prelude::*;

use core::ops::Not;
use rand::RngCore;

use crate::bitboard::Bitboard;
use crate::bits::{bit_set, bits_where, lemma_bit_or, lemma_bit_zero, lemma_bits_where, lemma_bits_where_has, lemma_popcount_clear_lowest, popcount};
use crate::text::{decimal, push_decimal, push_str};

use super::generate::{push_row, push_table, row_body, table_body};
use super::{
    bishop_target, dist, lemma_index_rf, lemma_rf_index, off_edge, on_board, on_ray, rook_target,
    slide_target, trim_edges,
};
use crate::bitboard::square::Square;
use super::utils::Direction;

verus! {

/// A random number.
///
/// Trusted: `rand::thread_rng` and `RngCore::next_u64` on the generator it gives. The number
/// comes from the thread's generator, so nothing is stated of it.
#[verifier::external_body]
fn random_u64() -> u64 {
    rand::thread_rng().next_u64()
}

/// A random number with few set bits: three random numbers and-ed together.
fn random_u64_few_bits() -> u64 {
    random_u64() & random_u64() & random_u64()
}

/// The rays table has one row of eight rays per square.
pub open spec fn rays_shaped(rays: Seq<Vec<u64>>) -> bool {
    &&& rays.len() == 64
    &&& forall|i: int| 0 <= i < 64 ==> #[trigger] rays[i]@.len() == 8
}

/// Square `j` is on the ray with index `k` of `row`.
pub open spec fn ray_bit(row: Seq<u64>, k: int, j: int) -> bool {
    bit_set(row[k], j as u64)
}

/// The relevant blockers of a rook on `i`, taken from the rays of `row` (north, east, south
/// and west) without the edge squares that do not matter.
pub open spec fn rook_mask_word(row: Seq<u64>, i: int) -> u64 {
    bits_where(
        |j: int|
            (ray_bit(row, 1, j) || ray_bit(row, 4, j) || ray_bit(row, 6, j) || ray_bit(row, 3, j))
                && off_edge(i, j),
    )
}

/// The relevant blockers of a bishop on `i`, taken from the rays of `row` (north-east,
/// north-west, south-east and south-west) without the edge squares that do not matter.
pub open spec fn bishop_mask_word(row: Seq<u64>, i: int) -> u64 {
    bits_where(
        |j: int|
            (ray_bit(row, 2, j) || ray_bit(row, 0, j) || ray_bit(row, 7, j) || ray_bit(row, 5, j))
                && off_edge(i, j),
    )
}

/// The blocker mask of each square.
pub open spec fn masks_of(rays: Seq<Vec<u64>>, bishop: bool) -> Seq<u64> {
    Seq::new(
        64,
        |i: int|
            if bishop {
                bishop_mask_word(rays[i]@, i)
            } else {
                rook_mask_word(rays[i]@, i)
            },
    )
}

fn get_mask(from: u8, rays: &Vec<Vec<u64>>, bishop: bool) -> (r: u64)
    requires
        from < 64,
        rays_shaped(rays@),
    ensures
        r == masks_of(rays@, bishop)[from as int],
{
    let row = &rays[from as usize];
    proof {
        assert(row@.len() == 8);
    }
    let (a, b, c, d) = if bishop {
        (row[2], row[0], row[7], row[5])
    } else {
        (row[1], row[4], row[6], row[3])
    };
    let all = a | b | c | d;
    let m = trim_edges(from, all);
    proof {
        let pred = |j: int|
            (bit_set(a, j as u64) || bit_set(b, j as u64) || bit_set(c, j as u64) || bit_set(
                d,
                j as u64,
            )) && off_edge(from as int, j);
        assert forall|j: u64| j < 64 implies #[trigger] bit_set(m, j) == pred(j as int) by {
            let ji = j as int;
            assert(on_board(ji));
            assert(bit_set(m, ji as u64) == (bit_set(all, ji as u64) && off_edge(from as int, ji)));
            lemma_bit_or(a | b | c, d, j);
            lemma_bit_or(a | b, c, j);
            lemma_bit_or(a, b, j);
        }
        lemma_bits_where(m, pred);
        if bishop {
            assert(pred =~= (|j: int|
                (ray_bit(row@, 2, j) || ray_bit(row@, 0, j) || ray_bit(row@, 7, j) || ray_bit(
                    row@,
                    5,
                    j,
                )) && off_edge(from as int, j)));
        } else {
            assert(pred =~= (|j: int|
                (ray_bit(row@, 1, j) || ray_bit(row@, 4, j) || ray_bit(row@, 6, j) || ray_bit(
                    row@,
                    3,
                    j,
                )) && off_edge(from as int, j)));
        }
    }
    m
}

fn masks_table(rays: &Vec<Vec<u64>>, bishop: bool) -> (r: Vec<u64>)
    requires
        rays_shaped(rays@),
    ensures
        r@ == masks_of(rays@, bishop),
{
    let mut v: Vec<u64> = Vec::new();
    let mut i: u8 = 0;
    while i < 64
        invariant
            i <= 64,
            rays_shaped(rays@),
            v.len() == i,
            forall|k: int| 0 <= k < i ==> v@[k] == masks_of(rays@, bishop)[k],
        decreases 64 - i,
    {
        let m = get_mask(i, rays, bishop);
        v.push(m);
        i = i + 1;
    }
    proof {
        assert(v@ =~= masks_of(rays@, bishop));
    }
    v
}

/// The declaration of a table of one hexadecimal entry per square.
pub open spec fn hex_table_decl(header: Seq<char>, v: Seq<u64>) -> Seq<char> {
    "\n"@ + "#[rustfmt::skip]\n"@ + header + table_body(v, "0x"@) + "\n];\n"@
}

fn write_hex_table(dest: &mut Vec<char>, header: &str, v: &Vec<u64>)
    ensures
        final(dest)@ == old(dest)@ + hex_table_decl(header@, v@),
{
    let ghost start = dest@;
    push_str(dest, "\n");
    push_str(dest, "#[rustfmt::skip]\n");
    push_str(dest, header);
    push_table(dest, v, "0x");
    push_str(dest, "\n];\n");
    proof {
        assert(dest@ =~= start + hex_table_decl(header@, v@));
    }
}

/// Writes the blocker masks of a rook on each square and returns them.
pub fn generate_rook_masks(dest: &mut Vec<char>, rays: &Vec<Vec<u64>>) -> (r: Vec<u64>)
    requires
        rays_shaped(rays@),
    ensures
        r@ == masks_of(rays@, false),
        final(dest)@ == old(dest)@ + hex_table_decl("pub const ROOK_MASKS: [u64; Board::SIZE] = ["@, r@),
{
    let masks = masks_table(rays, false);
    write_hex_table(dest, "pub const ROOK_MASKS: [u64; Board::SIZE] = [", &masks);
    masks
}

/// Writes the blocker masks of a bishop on each square and returns them.
pub fn generate_bishop_masks(dest: &mut Vec<char>, rays: &Vec<Vec<u64>>) -> (r: Vec<u64>)
    requires
        rays_shaped(rays@),
    ensures
        r@ == masks_of(rays@, true),
        final(dest)@ == old(dest)@ + hex_table_decl("pub const BISHOP_MASKS: [u64; Board::SIZE] = ["@, r@),
{
    let masks = masks_table(rays, true);
    write_hex_table(dest, "pub const BISHOP_MASKS: [u64; Board::SIZE] = [", &masks);
    masks
}

/// The entries of a table of counts, eight to a line, each in decimal and followed by a
/// comma.
pub open spec fn count_body(v: Seq<usize>) -> Seq<char>
    decreases v.len(),
{
    if v.len() == 0 {
        seq![]
    } else {
        count_body(v.drop_last()) + (if (v.len() - 1) % 8 == 0 {
            "\n\t"@
        } else {
            seq![]
        }) + decimal(v.last() as nat) + ", "@
    }
}

/// The declaration of a table of counts.
pub open spec fn count_table_decl(header: Seq<char>, v: Seq<usize>) -> Seq<char> {
    "\n"@ + "#[rustfmt::skip]\n"@ + header + count_body(v) + "\n];\n"@
}

/// The number of relevant blockers of each square.
pub open spec fn ones_of(rays: Seq<Vec<u64>>, bishop: bool) -> Seq<usize> {
    Seq::new(64, |i: int| popcount(masks_of(rays, bishop)[i]) as usize)
}

fn write_counts(dest: &mut Vec<char>, header: &str, v: &Vec<usize>)
    ensures
        final(dest)@ == old(dest)@ + count_table_decl(header@, v@),
{
    let ghost start = dest@;
    push_str(dest, "\n");
    push_str(dest, "#[rustfmt::skip]\n");
    push_str(dest, header);
    let ghost body_start = dest@;
    let mut i: usize = 0;
    proof {
        assert(v@.subrange(0, 0) =~= Seq::<usize>::empty());
    }
    while i < v.len()
        invariant
            i <= v.len(),
            dest@ == body_start + count_body(v@.subrange(0, i as int)),
        decreases v.len() - i,
    {
        let ghost w = v@.subrange(0, i + 1);
        proof {
            assert(w.drop_last() =~= v@.subrange(0, i as int));
        }
        let ghost before = dest@;
        if i % 8 == 0 {
            push_str(dest, "\n\t");
        }
        push_decimal(dest, v[i] as u64);
        push_str(dest, ", ");
        proof {
            assert(dest@ =~= before + ((if (w.len() - 1) % 8 == 0 {
                "\n\t"@
            } else {
                seq![]
            }) + decimal(w.last() as nat) + ", "@));
        }
        i = i + 1;
    }
    push_str(dest, "\n];\n");
    proof {
        assert(v@.subrange(0, v.len() as int) =~= v@);
        assert(dest@ =~= start + count_table_decl(header@, v@));
    }
}

fn ones_table(rays: &Vec<Vec<u64>>, bishop: bool) -> (r: Vec<usize>)
    requires
        rays_shaped(rays@),
    ensures
        r@ == ones_of(rays@, bishop),
{
    let mut v: Vec<usize> = Vec::new();
    let mut i: u8 = 0;
    while i < 64
        invariant
            i <= 64,
            rays_shaped(rays@),
            v.len() == i,
            forall|k: int| 0 <= k < i ==> v@[k] == ones_of(rays@, bishop)[k],
        decreases 64 - i,
    {
        let m = get_mask(i, rays, bishop);
        let ones = Bitboard(m).count_ones();
        v.push(ones);
        i = i + 1;
    }
    proof {
        assert(v@ =~= ones_of(rays@, bishop));
    }
    v
}

/// Writes how many relevant blockers a rook on each square has and returns the counts.
pub fn generate_rook_mask_ones(dest: &mut Vec<char>, rays: &Vec<Vec<u64>>) -> (r: Vec<usize>)
    requires
        rays_shaped(rays@),
    ensures
        r@ == ones_of(rays@, false),
        final(dest)@ == old(dest)@ + count_table_decl("pub const ROOK_MASK_ONES: [usize; Board::SIZE] = ["@, r@),
{
    let ones = ones_table(rays, false);
    write_counts(dest, "pub const ROOK_MASK_ONES: [usize; Board::SIZE] = [", &ones);
    ones
}

/// Writes how many relevant blockers a bishop on each square has and returns the counts.
pub fn generate_bishop_mask_ones(dest: &mut Vec<char>, rays: &Vec<Vec<u64>>) -> (r: Vec<usize>)
    requires
        rays_shaped(rays@),
    ensures
        r@ == ones_of(rays@, true),
        final(dest)@ == old(dest)@ + count_table_decl("pub const BISHOP_MASK_ONES: [usize; Board::SIZE] = ["@, r@),
{
    let ones = ones_table(rays, true);
    write_counts(dest, "pub const BISHOP_MASK_ONES: [usize; Board::SIZE] = [", &ones);
    ones
}

/// The lowest set bit of `mask`, as a word.
pub open spec fn lowest_word(mask: u64) -> u64 {
    mask ^ (mask & ((mask - 1) as u64))
}

/// The blockers that `index` picks from the first `count` squares of `mask`, lowest first:
/// bit `k` of `index` keeps the `k`-th lowest square.
pub open spec fn permutation(index: nat, count: nat, mask: u64) -> u64
    decreases count,
{
    if count == 0 {
        0
    } else {
        let rest = permutation(index / 2, (count - 1) as nat, mask & ((mask - 1) as u64));
        if index % 2 == 1 {
            rest | lowest_word(mask)
        } else {
            rest
        }
    }
}

/// Picks the blockers that `index` selects from the first `bit_count` squares of `mask`.
fn permutate(index: usize, bit_count: usize, mask: Bitboard) -> (r: Bitboard)
    requires
        bit_count <= popcount(mask.0),
    ensures
        r.0 == permutation(index as nat, bit_count as nat, mask.0),
{
    let mut result: u64 = 0;
    let mut m: u64 = mask.0;
    let mut rest_index: usize = index;
    let mut k: usize = 0;
    proof {
        let pv = permutation(index as nat, bit_count as nat, mask.0);
        assert(0u64 | pv == pv) by (bit_vector);
    }
    while k < bit_count
        invariant
            k <= bit_count,
            bit_count <= popcount(mask.0),
            popcount(m) + k == popcount(mask.0),
            result | permutation(rest_index as nat, (bit_count - k) as nat, m) == permutation(
                index as nat,
                bit_count as nat,
                mask.0,
            ),
        decreases bit_count - k,
    {
        let ghost p = permutation((rest_index / 2) as nat, (bit_count - k - 1) as nat, m & ((m - 1) as u64));
        let next = m & (m - 1);
        let low = m ^ next;
        proof {
            lemma_popcount_clear_lowest(m);
            assert(permutation(rest_index as nat, (bit_count - k) as nat, m) == if rest_index % 2 == 1 {
                p | low
            } else {
                p
            });
        }
        if rest_index % 2 == 1 {
            proof {
                let r0 = result;
                assert((r0 | low) | p == r0 | (p | low)) by (bit_vector);
            }
            result = result | low;
        }
        m = next;
        rest_index = rest_index / 2;
        k = k + 1;
    }
    proof {
        assert(result | 0u64 == result) by (bit_vector);
    }
    Bitboard(result)
}

/// The number of blocker choices for `ones` relevant squares.
pub open spec fn perm_count(ones: nat) -> nat {
    (1u64 << ones) as nat
}

/// The slot a magic multiplier gives a set of blockers: the top `ones` bits of the wrapped
/// product.
pub open spec fn magic_index(blockers: u64, magic: u64, ones: nat) -> int {
    (vstd::wrapping::u64_specs::wrapping_mul(blockers, magic) >> ((64 - ones) as u64)) as int
}

/// The squares a slider on `sq` attacks when `blockers` hold the pieces: a bishop's if
/// `bishop`, else a rook's.
pub open spec fn slider_word(bishop: bool, sq: int, blockers: u64) -> u64 {
    if bishop {
        bits_where(|j: int| bishop_target(sq, blockers, j))
    } else {
        bits_where(|j: int| rook_target(sq, blockers, j))
    }
}

/// A magic multiplier is good for a square when blocker choices that it sends to the same
/// slot give the same attacks.
pub open spec fn magic_ok(bishop: bool, sq: int, mask: u64, ones: nat, magic: u64) -> bool {
    forall|a: nat, b: nat|
        #![trigger permutation(a, ones, mask), permutation(b, ones, mask)]
        a < perm_count(ones) && b < perm_count(ones) && magic_index(permutation(a, ones, mask), magic, ones)
            == magic_index(permutation(b, ones, mask), magic, ones) ==> slider_word(
            bishop,
            sq,
            permutation(a, ones, mask),
        ) == slider_word(bishop, sq, permutation(b, ones, mask))
}

/// A slider always attacks some square: the next one along a line that stays on the board.
proof fn lemma_slider_nonzero(bishop: bool, sq: int, blockers: u64)
    requires
        on_board(sq),
    ensures
        slider_word(bishop, sq, blockers) != 0,
{
    lemma_rf_index(sq);
    let r = sq / 8;
    let f = sq % 8;
    let (d, j) = if !bishop {
        if r < 7 {
            (Direction::North, sq + 8)
        } else {
            (Direction::South, sq - 8)
        }
    } else if r < 7 {
        if f < 7 {
            (Direction::NorthEast, sq + 9)
        } else {
            (Direction::NorthWest, sq + 7)
        }
    } else if f < 7 {
        (Direction::SouthEast, sq - 7)
    } else {
        (Direction::SouthWest, sq - 9)
    };
    let rj = if r < 7 { r + 1 } else { r - 1 };
    let fj = if !bishop { f } else if f < 7 { f + 1 } else { f - 1 };
    lemma_index_rf(rj, fj);
    assert(j == rj * 8 + fj);
    assert(on_ray(sq, d, j));
    assert forall|m: int| #[trigger] on_ray(sq, d, m) && dist(sq, m) < dist(sq, j) implies !bit_set(
        blockers,
        m as u64,
    ) by {
        lemma_rf_index(m);
    }
    assert(slide_target(sq, d, blockers, j));
    if bishop {
        lemma_bits_where_has(|k: int| bishop_target(sq, blockers, k), j as u64);
    } else {
        lemma_bits_where_has(|k: int| rook_target(sq, blockers, k), j as u64);
    }
    lemma_bit_zero(j as u64);
}

/// How far the square index moves with one step in direction `d`.
pub open spec fn index_step(d: Direction) -> int {
    8 * d.rank_step() + d.file_step()
}

/// Along a ray the index moves by one step's amount per square.
proof fn lemma_ray_index(i: int, d: Direction, j: int)
    requires
        on_ray(i, d, j),
    ensures
        j == i + dist(i, j) * index_step(d),
        dist(i, j) >= 1,
{
    lemma_rf_index(i);
    lemma_rf_index(j);
    let n = dist(i, j);
    match d {
        Direction::North => assert(j == i + n * 8),
        Direction::South => assert(j == i + n * -8),
        Direction::East => assert(j == i + n * 1),
        Direction::West => assert(j == i + n * -1),
        Direction::NorthEast => assert(j == i + n * 9),
        Direction::NorthWest => assert(j == i + n * 7),
        Direction::SouthEast => assert(j == i + n * -7),
        Direction::SouthWest => assert(j == i + n * -9),
        Direction::Nowhere => {},
    }
}

/// A square of the ray from `i` lies beyond another square `b` of that ray exactly when it is
/// further from `i`.
proof fn lemma_beyond(i: int, d: Direction, b: int, j: int)
    requires
        on_ray(i, d, b),
        on_ray(i, d, j),
    ensures
        on_ray(b, d, j) <==> dist(i, j) > dist(i, b),
{
    lemma_rf_index(i);
    lemma_rf_index(b);
    lemma_rf_index(j);
}

/// The squares a slider on `from` reaches in `direction` with `blockers` occupied: the ray,
/// cut behind its first blocker. The first blocker is the lowest set square of the ray when
/// the ray runs towards higher squares, the highest (`leading`) when it runs towards lower ones.
fn get_ray_moves(from: Square, blockers: Bitboard, direction: Direction, leading: bool) -> (r: Bitboard)
    requires
        from.wf(),
        direction != Direction::Nowhere,
        leading == (index_step(direction) < 0),
    ensures
        forall|j: int| #[trigger] r.has(j) <==> slide_target(from.index as int, direction, blockers.0, j),
{
    let ghost i = from.index as int;
    let mut moves = Bitboard(0);

    let ray = from.get_ray(direction);
    moves = moves | ray;
    proof {
        assert forall|j: int| #[trigger] moves.has(j) <==> ray.has(j) by {
            crate::bitboard::lemma_set_ops(Bitboard(0), ray, j);
            lemma_bit_zero(j as u64);
        }
    }

    let blocking = ray & blockers;
    if !blocking.is_empty() {
        let blocker_index = if leading {
            blocking.get_leading_index()
        } else {
            blocking.get_trailing_index()
        };

        let blocker = Square::by_index(blocker_index);
        let beyond = blocker.get_ray(direction);
        let before = moves;
        moves = moves & beyond.not();
        proof {
            let b = blocker_index as int;
            crate::bitboard::lemma_set_ops(ray, blockers, b);
            assert(on_ray(i, direction, b));
            lemma_ray_index(i, direction, b);
            assert forall|j: int| #[trigger] moves.has(j) <==> slide_target(i, direction, blockers.0, j) by {
                crate::bitboard::lemma_set_ops(before, Bitboard(!beyond.0), j);
                crate::bitboard::lemma_set_ops(beyond, beyond, j);
                if on_ray(i, direction, j) {
                    lemma_beyond(i, direction, b, j);
                    if dist(i, j) > dist(i, b) {
                        assert(on_ray(i, direction, b) && dist(i, b) < dist(i, j));
                        assert(bit_set(blockers.0, b as u64));
                    } else {
                        assert forall|m: int| #[trigger] on_ray(i, direction, m) && dist(i, m) < dist(i, j) implies !bit_set(blockers.0, m as u64) by {
                            lemma_ray_index(i, direction, m);
                            crate::bitboard::lemma_set_ops(ray, blockers, m);
                            if bit_set(blockers.0, m as u64) {
                                assert(blocking.has(m));
                            }
                        }
                    }
                }
            }
        }
    } else {
        proof {
            assert forall|j: int| #[trigger] moves.has(j) <==> slide_target(i, direction, blockers.0, j) by {
                if on_ray(i, direction, j) {
                    assert forall|m: int| #[trigger] on_ray(i, direction, m) && dist(i, m) < dist(i, j) implies !bit_set(blockers.0, m as u64) by {
                        crate::bitboard::lemma_set_ops(ray, blockers, m);
                        lemma_bit_zero(m as u64);
                    }
                }
            }
        }
    }

    moves
}

/// The squares a rook on `from` attacks with `blockers` occupied, ray by ray.
fn rook_attacks(from: Square, blockers: Bitboard) -> (r: Bitboard)
    requires
        from.wf(),
    ensures
        forall|j: int| #[trigger] r.has(j) <==> rook_target(from.index as int, blockers.0, j),
{
    let mut moves = get_ray_moves(from, blockers, Direction::North, false);
    let east = get_ray_moves(from, blockers, Direction::East, false);
    let south = get_ray_moves(from, blockers, Direction::South, true);
    let west = get_ray_moves(from, blockers, Direction::West, true);
    let m1 = moves;
    moves = moves | east;
    let m2 = moves;
    moves = moves | south;
    let m3 = moves;
    moves = moves | west;
    proof {
        assert forall|j: int| #[trigger] moves.has(j) <==> rook_target(from.index as int, blockers.0, j) by {
            crate::bitboard::lemma_set_ops(m3, west, j);
            crate::bitboard::lemma_set_ops(m2, south, j);
            crate::bitboard::lemma_set_ops(m1, east, j);
        }
    }
    moves
}

/// The squares a bishop on `from` attacks with `blockers` occupied, ray by ray.
fn bishop_attacks(from: Square, blockers: Bitboard) -> (r: Bitboard)
    requires
        from.wf(),
    ensures
        forall|j: int| #[trigger] r.has(j) <==> bishop_target(from.index as int, blockers.0, j),
{
    let mut moves = get_ray_moves(from, blockers, Direction::NorthEast, false);
    let south_east = get_ray_moves(from, blockers, Direction::SouthEast, true);
    let south_west = get_ray_moves(from, blockers, Direction::SouthWest, true);
    let north_west = get_ray_moves(from, blockers, Direction::NorthWest, false);
    let m1 = moves;
    moves = moves | south_east;
    let m2 = moves;
    moves = moves | south_west;
    let m3 = moves;
    moves = moves | north_west;
    proof {
        assert forall|j: int| #[trigger] moves.has(j) <==> bishop_target(from.index as int, blockers.0, j) by {
            crate::bitboard::lemma_set_ops(m3, north_west, j);
            crate::bitboard::lemma_set_ops(m2, south_west, j);
            crate::bitboard::lemma_set_ops(m1, south_east, j);
        }
    }
    moves
}

fn slider_attacks(bishop: bool, sq: u8, blockers: u64) -> (r: u64)
    requires
        sq < 64,
    ensures
        r == slider_word(bishop, sq as int, blockers),
        r != 0,
{
    let from = Square::by_index(sq);
    let attacks = if bishop {
        bishop_attacks(from, Bitboard(blockers))
    } else {
        rook_attacks(from, Bitboard(blockers))
    };
    let r = attacks.0;
    proof {
        if bishop {
            assert forall|j: u64| j < 64 implies #[trigger] bit_set(r, j) == bishop_target(sq as int, blockers, j as int) by {
                let ji = j as int;
                assert(on_board(ji));
                assert(attacks.has(ji) == bishop_target(sq as int, blockers, ji));
            }
            lemma_bits_where(r, |j: int| bishop_target(sq as int, blockers, j));
        } else {
            assert forall|j: u64| j < 64 implies #[trigger] bit_set(r, j) == rook_target(sq as int, blockers, j as int) by {
                let ji = j as int;
                assert(on_board(ji));
                assert(attacks.has(ji) == rook_target(sq as int, blockers, ji));
            }
            lemma_bits_where(r, |j: int| rook_target(sq as int, blockers, j));
        }
        lemma_slider_nonzero(bishop, sq as int, blockers);
    }
    r
}

/// The slots of a magic index stay below `2^ones`.
proof fn lemma_magic_index_bound(x: u64, ones: u64)
    requires
        1 <= ones <= 12,
    ensures
        (x >> ((64 - ones) as u64)) < (1u64 << ones),
        (1u64 << ones) <= 4096,
{
    assert(1 <= ones <= 12 ==> (x >> ((64 - ones) as u64)) < (1u64 << ones) && (1u64 << ones) <= 4096) by (bit_vector);
}

/// Whether `magic` sends the blocker choices `permutations` of a slider on `square` to slots
/// without a clash: two choices that share a slot have the same attacks, as `attacks` lists
/// them.
fn magic_fits(
    magic: u64,
    permutations: &Vec<u64>,
    attacks: &Vec<u64>,
    ones: usize,
    Ghost(bishop): Ghost<bool>,
    Ghost(square): Ghost<int>,
    Ghost(mask): Ghost<u64>,
) -> (r: bool)
    requires
        1 <= ones <= 12,
        permutations.len() == perm_count(ones as nat),
        attacks.len() == perm_count(ones as nat),
        forall|k: int| 0 <= k < permutations.len() ==> permutations@[k] == permutation(k as nat, ones as nat, mask),
        forall|k: int| 0 <= k < attacks.len() ==> attacks@[k] == slider_word(bishop, square, permutations@[k]),
        forall|k: int| 0 <= k < attacks.len() ==> attacks@[k] != 0,
    ensures
        r == magic_ok(bishop, square, mask, ones as nat, magic),
{
    proof {
        lemma_magic_index_bound(0, ones as u64);
    }
    let count = permutations.len();
    let mut used: Vec<u64> = Vec::new();
    let mut u: usize = 0;
    while u < 4096
        invariant
            u <= 4096,
            used.len() == u,
            forall|x: int| 0 <= x < u ==> used@[x] == 0,
        decreases 4096 - u,
    {
        used.push(0);
        u = u + 1;
    }
    let mut index: usize = 0;
    while index < count
        invariant
            count == perm_count(ones as nat),
            count <= 4096,
            1 <= ones <= 12,
            index <= count,
            used.len() == 4096,
            permutations.len() == count,
            attacks.len() == count,
            forall|k: int| 0 <= k < count ==> attacks@[k] != 0,
            forall|k: int| 0 <= k < count ==> permutations@[k] == permutation(k as nat, ones as nat, mask),
            forall|k: int| 0 <= k < count ==> attacks@[k] == slider_word(bishop, square, permutations@[k]),
            forall|k: int|
                0 <= k < index ==> 0 <= #[trigger] magic_index(permutations@[k], magic, ones as nat) < 4096
                    && used@[magic_index(permutations@[k], magic, ones as nat)] == attacks@[k],
            forall|s: int|
                0 <= s < 4096 && #[trigger] used@[s] != 0 ==> exists|k: int|
                    0 <= k < index && magic_index(permutations@[k], magic, ones as nat) == s,
        decreases count - index,
    {
        let slot = Bitboard(permutations[index]).get_magic_index(magic, ones);
        proof {
            lemma_magic_index_bound(
                vstd::wrapping::u64_specs::wrapping_mul(permutations@[index as int], magic),
                ones as u64,
            );
        }
        if used[slot] == 0 {
            let ghost before = used@;
            used.set(slot, attacks[index]);
            proof {
                assert forall|s: int| 0 <= s < 4096 && #[trigger] used@[s] != 0 implies exists|k: int|
                    0 <= k < index + 1 && magic_index(permutations@[k], magic, ones as nat) == s by {
                    if s == slot as int {
                        assert(magic_index(permutations@[index as int], magic, ones as nat) == s);
                    } else {
                        assert(before[s] != 0);
                        let k = choose|k: int| 0 <= k < index && magic_index(permutations@[k], magic, ones as nat) == s;
                        assert(0 <= k < index + 1 && magic_index(permutations@[k], magic, ones as nat) == s);
                    }
                }
                assert forall|k: int| 0 <= k < index + 1 implies 0 <= #[trigger] magic_index(permutations@[k], magic, ones as nat) < 4096
                    && used@[magic_index(permutations@[k], magic, ones as nat)] == attacks@[k] by {
                    if k < index {
                        assert(before[magic_index(permutations@[k], magic, ones as nat)] == attacks@[k]);
                    }
                }
            }
        } else if used[slot] != attacks[index] {
            proof {
                let s = slot as int;
                let k = choose|k: int| 0 <= k < index && magic_index(permutations@[k], magic, ones as nat) == s;
                assert(used@[magic_index(permutations@[k], magic, ones as nat)] == attacks@[k]);
                assert(permutations@[k] == permutation(k as nat, ones as nat, mask));
                assert(permutations@[index as int] == permutation(index as nat, ones as nat, mask));
                assert(!magic_ok(bishop, square, mask, ones as nat, magic)) by {
                    if magic_ok(bishop, square, mask, ones as nat, magic) {
                        assert(magic_index(permutation(k as nat, ones as nat, mask), magic, ones as nat) == magic_index(
                            permutation(index as nat, ones as nat, mask),
                            magic,
                            ones as nat,
                        ));
                    }
                }
            }
            return false;
        }
        index = index + 1;
    }
    proof {
        assert forall|a: nat, b: nat|
            #![trigger permutation(a, ones as nat, mask), permutation(b, ones as nat, mask)]
            a < perm_count(ones as nat) && b < perm_count(ones as nat) && magic_index(
                permutation(a, ones as nat, mask),
                magic,
                ones as nat,
            ) == magic_index(permutation(b, ones as nat, mask), magic, ones as nat) implies slider_word(
                bishop,
                square,
                permutation(a, ones as nat, mask),
            ) == slider_word(bishop, square, permutation(b, ones as nat, mask)) by {
            assert(permutations@[a as int] == permutation(a, ones as nat, mask));
            assert(permutations@[b as int] == permutation(b, ones as nat, mask));
            assert(magic_index(permutations@[a as int], magic, ones as nat) == magic_index(
                permutations@[b as int],
                magic,
                ones as nat,
            ));
        }
    }
    true
}

/// A multiplier is worth trying for `mask` when it leaves at least six set bits in the top
/// byte of the product.
pub open spec fn magic_candidate(mask: u64, magic: u64) -> bool {
    popcount(vstd::wrapping::u64_specs::wrapping_mul(mask, magic) & 0xFF00000000000000u64) >= 6
}

/// A drawn multiplier is kept for square `square`: it is worth trying and sends no two blocker
/// choices with different attacks to the same slot.
pub open spec fn magic_kept(bishop: bool, square: int, mask: u64, ones: nat, m: u64) -> bool {
    magic_candidate(mask, m) && magic_ok(bishop, square, mask, ones, m)
}

/// Searches for a magic multiplier that is good for square `square`, with blocker mask
/// `mask` of `ones` relevant squares; gives up after a hundred million random tries. The
/// numbers drawn come back as a ghost sequence: all but the last were rejected, a multiplier
/// found is the last one drawn, and `None` comes only after a hundred million rejections.
fn find_magic(square: u8, mask: u64, ones: usize, bishop: bool) -> (r: (Option<u64>, Ghost<Seq<u64>>))
    requires
        square < 64,
        1 <= ones <= 12,
        ones <= popcount(mask),
    ensures
        r.0 matches Some(m) ==> magic_ok(bishop, square as int, mask, ones as nat, m) && magic_candidate(mask, m),
        r.1@.len() <= 100_000_000,
        forall|k: int| 0 <= k < r.1@.len() - 1 ==> !magic_kept(bishop, square as int, mask, ones as nat, #[trigger] r.1@[k]),
        r.0 matches Some(m) ==> r.1@.len() > 0 && r.1@.last() == m,
        r.0 is None ==> r.1@.len() == 100_000_000 && forall|k: int| 0 <= k < r.1@.len() ==> !magic_kept(
            bishop,
            square as int,
            mask,
            ones as nat,
            #[trigger] r.1@[k],
        ),
{
    proof {
        lemma_magic_index_bound(0, ones as u64);
    }
    let count = (1u64 << (ones as u64)) as usize;
    let mut permutations: Vec<u64> = Vec::new();
    let mut attacks: Vec<u64> = Vec::new();
    let mut index: usize = 0;
    while index < count
        invariant
            count == perm_count(ones as nat),
            count <= 4096,
            square < 64,
            ones <= popcount(mask),
            index <= count,
            permutations.len() == index,
            attacks.len() == index,
            forall|k: int| 0 <= k < index ==> permutations@[k] == permutation(k as nat, ones as nat, mask),
            forall|k: int| 0 <= k < index ==> attacks@[k] == slider_word(bishop, square as int, permutations@[k]),
            forall|k: int| 0 <= k < index ==> attacks@[k] != 0,
        decreases count - index,
    {
        let permutation = permutate(index, ones, Bitboard(mask));
        permutations.push(permutation.0);
        attacks.push(slider_attacks(bishop, square, permutation.0));
        index = index + 1;
    }
    let mut tries: u32 = 0;
    let ghost mut drawn: Seq<u64> = Seq::empty();
    while tries < 100_000_000
        invariant
            drawn.len() == tries,
            tries <= 100_000_000,
            forall|k: int| 0 <= k < drawn.len() ==> !magic_kept(bishop, square as int, mask, ones as nat, #[trigger] drawn[k]),
            count == perm_count(ones as nat),
            count <= 4096,
            1 <= ones <= 12,
            permutations.len() == count,
            attacks.len() == count,
            forall|k: int| 0 <= k < count ==> permutations@[k] == permutation(k as nat, ones as nat, mask),
            forall|k: int| 0 <= k < count ==> attacks@[k] == slider_word(bishop, square as int, permutations@[k]),
            forall|k: int| 0 <= k < count ==> attacks@[k] != 0,
        decreases 100_000_000 - tries,
    {
        tries = tries + 1;
        let magic = random_u64_few_bits();
        let ghost before = drawn;
        proof {
            drawn = drawn.push(magic);
        }
        if !Bitboard(mask).is_magic_canidate(magic) {
            proof {
                assert forall|k: int| 0 <= k < drawn.len() implies !magic_kept(bishop, square as int, mask, ones as nat, #[trigger] drawn[k]) by {
                    if k < before.len() {
                        assert(drawn[k] == before[k]);
                    }
                }
            }
            continue;
        }
        if magic_fits(magic, &permutations, &attacks, ones, Ghost(bishop), Ghost(square as int), Ghost(mask)) {
            proof {
                assert forall|k: int| 0 <= k < drawn.len() - 1 implies !magic_kept(bishop, square as int, mask, ones as nat, #[trigger] drawn[k]) by {
                    assert(drawn[k] == before[k]);
                }
            }
            return (Some(magic), Ghost(drawn));
        }
        proof {
            assert forall|k: int| 0 <= k < drawn.len() implies !magic_kept(bishop, square as int, mask, ones as nat, #[trigger] drawn[k]) by {
                if k < before.len() {
                    assert(drawn[k] == before[k]);
                }
            }
        }
    }
    (None, Ghost(drawn))
}

/// The masks and counts that a magic search is run with: a count of one to twelve relevant
/// squares, no more than the mask holds, for each square.
pub open spec fn search_inputs_ok(masks: Seq<u64>, ones: Seq<usize>) -> bool {
    &&& masks.len() == 64
    &&& ones.len() == 64
    &&& forall|i: int| 0 <= i < 64 ==> 1 <= #[trigger] ones[i] <= 12 && ones[i] <= popcount(masks[i])
}

/// Finds a good magic multiplier for each square, or `None` if the search gave up on one.
fn find_magics(masks: &Vec<u64>, ones: &Vec<usize>, bishop: bool) -> (r: Option<Vec<u64>>)
    requires
        search_inputs_ok(masks@, ones@),
    ensures
        r matches Some(m) ==> m.len() == 64 && forall|i: int| 0 <= i < 64 ==> magic_ok(
            bishop,
            i,
            masks@[i],
            ones@[i] as nat,
            #[trigger] m@[i],
        ) && magic_candidate(masks@[i], m@[i]),
{
    let mut magics: Vec<u64> = Vec::new();
    let mut i: u8 = 0;
    while i < 64
        invariant
            i <= 64,
            search_inputs_ok(masks@, ones@),
            magics.len() == i,
            forall|k: int| 0 <= k < i ==> magic_ok(bishop, k, masks@[k], ones@[k] as nat, #[trigger] magics@[k])
                && magic_candidate(masks@[k], magics@[k]),
        decreases 64 - i,
    {
        proof {
            assert(1 <= ones@[i as int] <= 12);
        }
        let (found, _drawn) = find_magic(i, masks[i as usize], ones[i as usize], bishop);
        match found {
            Some(magic) => magics.push(magic),
            None => {
                return None;
            },
        }
        i = i + 1;
    }
    Some(magics)
}

/// Writes a good magic multiplier of a rook for each square and returns them, or writes
/// nothing and returns `None` if the random search gave up on a square.
pub fn generate_rook_magics(dest: &mut Vec<char>, masks: &Vec<u64>, ones: &Vec<usize>) -> (r: Option<Vec<u64>>)
    requires
        search_inputs_ok(masks@, ones@),
    ensures
        r matches Some(m) ==> m.len() == 64 && (forall|i: int| 0 <= i < 64 ==> magic_ok(
            false,
            i,
            masks@[i],
            ones@[i] as nat,
            #[trigger] m@[i],
        ) && magic_candidate(masks@[i], m@[i])) && final(dest)@ == old(dest)@ + hex_table_decl(
            "pub const ROOK_MAGICS: [u64; Board::SIZE] = ["@,
            m@,
        ),
        r is None ==> final(dest)@ == old(dest)@,
{
    match find_magics(masks, ones, false) {
        Some(magics) => {
            write_hex_table(dest, "pub const ROOK_MAGICS: [u64; Board::SIZE] = [", &magics);
            Some(magics)
        },
        None => None,
    }
}

/// Writes a good magic multiplier of a bishop for each square and returns them, or writes
/// nothing and returns `None` if the random search gave up on a square.
pub fn generate_bishop_magics(dest: &mut Vec<char>, masks: &Vec<u64>, ones: &Vec<usize>) -> (r: Option<Vec<u64>>)
    requires
        search_inputs_ok(masks@, ones@),
    ensures
        r matches Some(m) ==> m.len() == 64 && (forall|i: int| 0 <= i < 64 ==> magic_ok(
            true,
            i,
            masks@[i],
            ones@[i] as nat,
            #[trigger] m@[i],
        ) && magic_candidate(masks@[i], m@[i])) && final(dest)@ == old(dest)@ + hex_table_decl(
            "pub const BISHOP_MAGICS: [u64; Board::SIZE] = ["@,
            m@,
        ),
        r is None ==> final(dest)@ == old(dest)@,
{
    match find_magics(masks, ones, true) {
        Some(magics) => {
            write_hex_table(dest, "pub const BISHOP_MAGICS: [u64; Board::SIZE] = [", &magics);
            Some(magics)
        },
        None => None,
    }
}

/// The attacks a square's row of the attack table holds after the first `n` blocker choices
/// were written to their slots, later ones over earlier ones, in a row of `width` slots.
pub open spec fn attack_row(bishop: bool, sq: int, mask: u64, ones: nat, magic: u64, width: nat, n: nat) -> Seq<u64>
    decreases n,
{
    if n == 0 {
        Seq::new(width, |x: int| 0u64)
    } else {
        let p = permutation((n - 1) as nat, ones, mask);
        attack_row(bishop, sq, mask, ones, magic, width, (n - 1) as nat).update(
            magic_index(p, magic, ones),
            slider_word(bishop, sq, p),
        )
    }
}

/// With a good magic multiplier, the attack table answers every blocker choice: the slot
/// that the multiplier gives the blockers holds the attacks through them.
pub proof fn lemma_attack_row_answers(bishop: bool, sq: int, mask: u64, ones: nat, magic: u64, width: nat, n: nat)
    requires
        magic_ok(bishop, sq, mask, ones, magic),
        n <= perm_count(ones),
        forall|a: nat| a < perm_count(ones) ==> 0 <= #[trigger] magic_index(permutation(a, ones, mask), magic, ones) < width,
    ensures
        attack_row(bishop, sq, mask, ones, magic, width, n).len() == width,
        forall|a: nat|
            a < n ==> #[trigger] attack_row(bishop, sq, mask, ones, magic, width, n)[magic_index(
                permutation(a, ones, mask),
                magic,
                ones,
            )] == slider_word(bishop, sq, permutation(a, ones, mask)),
    decreases n,
{
    if n > 0 {
        let m = (n - 1) as nat;
        lemma_attack_row_answers(bishop, sq, mask, ones, magic, width, m);
        let p = permutation(m, ones, mask);
        assert forall|a: nat|
            a < n implies #[trigger] attack_row(bishop, sq, mask, ones, magic, width, n)[magic_index(
                permutation(a, ones, mask),
                magic,
                ones,
            )] == slider_word(bishop, sq, permutation(a, ones, mask)) by {
            let pa = permutation(a, ones, mask);
            assert(0 <= magic_index(pa, magic, ones) < width);
            assert(0 <= magic_index(p, magic, ones) < width);
            if a < m && magic_index(pa, magic, ones) == magic_index(p, magic, ones) {
                assert(slider_word(bishop, sq, pa) == slider_word(bishop, sq, p));
            }
        }
    }
}

/// Builds the attack table row of one square.
fn attack_row_of(bishop: bool, sq: u8, mask: u64, ones: usize, magic: u64, width: usize) -> (r: Vec<u64>)
    requires
        sq < 64,
        1 <= ones <= 12,
        ones <= popcount(mask),
        width == 4096 || width == 512,
        width == 512 ==> ones <= 9,
    ensures
        r@ == attack_row(bishop, sq as int, mask, ones as nat, magic, width as nat, perm_count(ones as nat)),
        forall|a: nat| a < perm_count(ones as nat) ==> 0 <= #[trigger] magic_index(permutation(a, ones as nat, mask), magic, ones as nat) < width,
{
    let mut row: Vec<u64> = Vec::new();
    let mut x: usize = 0;
    while x < width
        invariant
            x <= width,
            row.len() == x,
            forall|k: int| 0 <= k < x ==> row@[k] == 0u64,
        decreases width - x,
    {
        row.push(0);
        x = x + 1;
    }
    proof {
        assert(row@ =~= attack_row(bishop, sq as int, mask, ones as nat, magic, width as nat, 0));
        lemma_magic_index_bound(0, ones as u64);
    }
    let count = (1u64 << (ones as u64)) as usize;
    proof {
        assert forall|a: nat| a < perm_count(ones as nat) implies 0 <= #[trigger] magic_index(permutation(a, ones as nat, mask), magic, ones as nat) < width by {
            lemma_magic_index_bound(
                vstd::wrapping::u64_specs::wrapping_mul(permutation(a, ones as nat, mask), magic),
                ones as u64,
            );
            if width == 512 {
                let o = ones as u64;
                assert(1 <= o <= 9 ==> (1u64 << o) <= 512) by (bit_vector);
            }
        }
    }
    let mut index: usize = 0;
    while index < count
        invariant
            count == perm_count(ones as nat),
            count <= 4096,
            1 <= ones <= 12,
            ones <= popcount(mask),
            sq < 64,
            index <= count,
            row.len() == width,
            row@ == attack_row(bishop, sq as int, mask, ones as nat, magic, width as nat, index as nat),
            forall|a: nat| a < perm_count(ones as nat) ==> 0 <= #[trigger] magic_index(permutation(a, ones as nat, mask), magic, ones as nat) < width,
        decreases count - index,
    {
        let blockers = permutate(index, ones, Bitboard(mask));
        let slot = blockers.get_magic_index(magic, ones);
        let attacks = slider_attacks(bishop, sq, blockers.0);
        proof {
            assert(magic_index(permutation(index as nat, ones as nat, mask), magic, ones as nat) == slot);
        }
        row.set(slot, attacks);
        index = index + 1;
    }
    row
}

/// The views of the rows of a table.
pub open spec fn rows_view(v: Seq<Vec<u64>>) -> Seq<Seq<u64>> {
    v.map_values(|x: Vec<u64>| x@)
}

/// The rows of an attack table, each on a line of its own.
pub open spec fn attack_rows(rows: Seq<Seq<u64>>) -> Seq<char>
    decreases rows.len(),
{
    if rows.len() == 0 {
        seq![]
    } else {
        attack_rows(rows.drop_last()) + "\n\t[ "@ + row_body(rows.last(), "0x"@) + "],"@
    }
}

/// The declaration of an attack table.
pub open spec fn attack_table_decl(header: Seq<char>, rows: Seq<Seq<u64>>) -> Seq<char> {
    "\n"@ + "#[rustfmt::skip]\n"@ + header + attack_rows(rows) + "\n];\n"@
}

/// The magic multipliers, masks and counts of all squares fit an attack table of `width`
/// slots per square.
pub open spec fn table_inputs_ok(magics: Seq<u64>, masks: Seq<u64>, ones: Seq<usize>, width: nat) -> bool {
    &&& magics.len() == 64
    &&& search_inputs_ok(masks, ones)
    &&& forall|i: int| 0 <= i < 64 ==> (width == 512 ==> #[trigger] ones[i] <= 9)
}

fn attack_table(magics: &Vec<u64>, masks: &Vec<u64>, ones: &Vec<usize>, bishop: bool, width: usize) -> (r: Vec<Vec<u64>>)
    requires
        width == 4096 || width == 512,
        table_inputs_ok(magics@, masks@, ones@, width as nat),
    ensures
        r.len() == 64,
        forall|i: int|
            0 <= i < 64 ==> #[trigger] r@[i]@ == attack_row(
                bishop,
                i,
                masks@[i],
                ones@[i] as nat,
                magics@[i],
                width as nat,
                perm_count(ones@[i] as nat),
            ),
        forall|i: int, a: nat|
            0 <= i < 64 && a < perm_count(ones@[i] as nat) ==> 0 <= #[trigger] magic_index(
                permutation(a, ones@[i] as nat, masks@[i]),
                magics@[i],
                ones@[i] as nat,
            ) < width,
{
    let mut table: Vec<Vec<u64>> = Vec::new();
    let mut i: u8 = 0;
    while i < 64
        invariant
            i <= 64,
            width == 4096 || width == 512,
            table_inputs_ok(magics@, masks@, ones@, width as nat),
            table.len() == i,
            forall|k: int|
                0 <= k < i ==> #[trigger] table@[k]@ == attack_row(
                    bishop,
                    k,
                    masks@[k],
                    ones@[k] as nat,
                    magics@[k],
                    width as nat,
                    perm_count(ones@[k] as nat),
                ),
            forall|k: int, a: nat|
                0 <= k < i && a < perm_count(ones@[k] as nat) ==> 0 <= #[trigger] magic_index(
                    permutation(a, ones@[k] as nat, masks@[k]),
                    magics@[k],
                    ones@[k] as nat,
                ) < width,
        decreases 64 - i,
    {
        proof {
            assert(1 <= ones@[i as int] <= 12);
        }
        let row = attack_row_of(bishop, i, masks[i as usize], ones[i as usize], magics[i as usize], width);
        table.push(row);
        i = i + 1;
    }
    table
}

fn write_attack_table(dest: &mut Vec<char>, header: &str, table: &Vec<Vec<u64>>)
    ensures
        final(dest)@ == old(dest)@ + attack_table_decl(header@, rows_view(table@)),
{
    let ghost start = dest@;
    let ghost rows = rows_view(table@);
    push_str(dest, "\n");
    push_str(dest, "#[rustfmt::skip]\n");
    push_str(dest, header);
    let ghost body_start = dest@;
    let mut i: usize = 0;
    proof {
        assert(rows.subrange(0, 0) =~= Seq::<Seq<u64>>::empty());
    }
    while i < table.len()
        invariant
            i <= table.len(),
            rows == rows_view(table@),
            dest@ == body_start + attack_rows(rows.subrange(0, i as int)),
        decreases table.len() - i,
    {
        let ghost w = rows.subrange(0, i + 1);
        proof {
            assert(w.drop_last() =~= rows.subrange(0, i as int));
        }
        let ghost before = dest@;
        push_str(dest, "\n\t[ ");
        push_row(dest, &table[i], "0x");
        push_str(dest, "],");
        proof {
            assert(dest@ =~= before + ("\n\t[ "@ + row_body(w.last(), "0x"@) + "],"@));
        }
        i = i + 1;
    }
    push_str(dest, "\n];\n");
    proof {
        assert(rows.subrange(0, table.len() as int) =~= rows);
        assert(dest@ =~= start + attack_table_decl(header@, rows));
    }
}

/// Writes the rook attack table of the magic multipliers and returns it: for each square, the
/// attacks through each choice of blockers, in the slot that the multiplier gives the
/// blockers (a later choice over an earlier one).
pub fn generate_rook_attacks(dest: &mut Vec<char>, magics: &Vec<u64>, masks: &Vec<u64>, ones: &Vec<usize>) -> (r:
    Vec<Vec<u64>>)
    requires
        table_inputs_ok(magics@, masks@, ones@, 4096),
    ensures
        r.len() == 64,
        forall|i: int|
            0 <= i < 64 ==> #[trigger] r@[i]@ == attack_row(
                false,
                i,
                masks@[i],
                ones@[i] as nat,
                magics@[i],
                4096,
                perm_count(ones@[i] as nat),
            ),
        forall|i: int, a: nat|
            0 <= i < 64 && a < perm_count(ones@[i] as nat) && magic_ok(false, i, masks@[i], ones@[i] as nat, magics@[i])
                ==> #[trigger] r@[i]@[magic_index(permutation(a, ones@[i] as nat, masks@[i]), magics@[i], ones@[i] as nat)]
                == slider_word(false, i, permutation(a, ones@[i] as nat, masks@[i])),
        final(dest)@ == old(dest)@ + attack_table_decl(
            "pub const ROOK_ATTACKS: [[u64; 4096]; Board::SIZE] = ["@,
            rows_view(r@),
        ),
{
    let table = attack_table(magics, masks, ones, false, 4096);
    proof {
        assert forall|i: int, a: nat|
            0 <= i < 64 && a < perm_count(ones@[i] as nat) && magic_ok(false, i, masks@[i], ones@[i] as nat, magics@[i])
                implies #[trigger] table@[i]@[magic_index(permutation(a, ones@[i] as nat, masks@[i]), magics@[i], ones@[i] as nat)]
                == slider_word(false, i, permutation(a, ones@[i] as nat, masks@[i])) by {
            assert(table@[i]@ == attack_row(false, i, masks@[i], ones@[i] as nat, magics@[i], 4096, perm_count(ones@[i] as nat)));
            lemma_attack_row_answers(false, i, masks@[i], ones@[i] as nat, magics@[i], 4096, perm_count(ones@[i] as nat));
        }
    }
    write_attack_table(dest, "pub const ROOK_ATTACKS: [[u64; 4096]; Board::SIZE] = [", &table);
    table
}

/// Writes the bishop attack table of the magic multipliers and returns it: for each square,
/// the attacks through each choice of blockers, in the slot that the multiplier gives the
/// blockers (a later choice over an earlier one).
pub fn generate_bishop_attacks(dest: &mut Vec<char>, magics: &Vec<u64>, masks: &Vec<u64>, ones: &Vec<usize>) -> (r:
    Vec<Vec<u64>>)
    requires
        table_inputs_ok(magics@, masks@, ones@, 512),
    ensures
        r.len() == 64,
        forall|i: int|
            0 <= i < 64 ==> #[trigger] r@[i]@ == attack_row(
                true,
                i,
                masks@[i],
                ones@[i] as nat,
                magics@[i],
                512,
                perm_count(ones@[i] as nat),
            ),
        forall|i: int, a: nat|
            0 <= i < 64 && a < perm_count(ones@[i] as nat) && magic_ok(true, i, masks@[i], ones@[i] as nat, magics@[i])
                ==> #[trigger] r@[i]@[magic_index(permutation(a, ones@[i] as nat, masks@[i]), magics@[i], ones@[i] as nat)]
                == slider_word(true, i, permutation(a, ones@[i] as nat, masks@[i])),
        final(dest)@ == old(dest)@ + attack_table_decl(
            "pub const BISHOP_ATTACKS: [[u64; 512]; Board::SIZE] = ["@,
            rows_view(r@),
        ),
{
    let table = attack_table(magics, masks, ones, true, 512);
    proof {
        assert forall|i: int, a: nat|
            0 <= i < 64 && a < perm_count(ones@[i] as nat) && magic_ok(true, i, masks@[i], ones@[i] as nat, magics@[i])
                implies #[trigger] table@[i]@[magic_index(permutation(a, ones@[i] as nat, masks@[i]), magics@[i], ones@[i] as nat)]
                == slider_word(true, i, permutation(a, ones@[i] as nat, masks@[i])) by {
            assert(table@[i]@ == attack_row(true, i, masks@[i], ones@[i] as nat, magics@[i], 512, perm_count(ones@[i] as nat)));
            lemma_attack_row_answers(true, i, masks@[i], ones@[i] as nat, magics@[i], 512, perm_count(ones@[i] as nat));
        }
    }
    write_attack_table(dest, "pub const BISHOP_ATTACKS: [[u64; 512]; Board::SIZE] = [", &table);
    table
}

/// The width of a slider's row of the attack table.
pub open spec fn table_width(bishop: bool) -> nat {
    if bishop {
        512
    } else {
        4096
    }
}

/// Good magic multipliers for every square of a slider, with the blocker masks and counts
/// taken from `rays`.
pub open spec fn good_magics(rays: Seq<Vec<u64>>, bishop: bool, magics: Seq<u64>) -> bool {
    &&& magics.len() == 64
    &&& forall|i: int|
        0 <= i < 64 ==> magic_ok(
            bishop,
            i,
            masks_of(rays, bishop)[i],
            ones_of(rays, bishop)[i] as nat,
            #[trigger] magics[i],
        )
}

/// The rows of a slider's attack table for the magic multipliers `magics`.
pub open spec fn attack_rows_of(rays: Seq<Vec<u64>>, bishop: bool, magics: Seq<u64>) -> Seq<Seq<u64>> {
    Seq::new(
        64,
        |i: int|
            attack_row(
                bishop,
                i,
                masks_of(rays, bishop)[i],
                ones_of(rays, bishop)[i] as nat,
                magics[i],
                table_width(bishop),
                perm_count(ones_of(rays, bishop)[i] as nat),
            ),
    )
}

/// The tables written for a slider: its masks, their counts, its magic multipliers and its
/// attack table.
pub open spec fn slider_tables(rays: Seq<Vec<u64>>, bishop: bool, magics: Seq<u64>) -> Seq<char> {
    if bishop {
        hex_table_decl("pub const BISHOP_MASKS: [u64; Board::SIZE] = ["@, masks_of(rays, true))
            + count_table_decl("pub const BISHOP_MASK_ONES: [usize; Board::SIZE] = ["@, ones_of(rays, true))
            + hex_table_decl("pub const BISHOP_MAGICS: [u64; Board::SIZE] = ["@, magics)
            + attack_table_decl(
            "pub const BISHOP_ATTACKS: [[u64; 512]; Board::SIZE] = ["@,
            attack_rows_of(rays, true, magics),
        )
    } else {
        hex_table_decl("pub const ROOK_MASKS: [u64; Board::SIZE] = ["@, masks_of(rays, false))
            + count_table_decl("pub const ROOK_MASK_ONES: [usize; Board::SIZE] = ["@, ones_of(rays, false))
            + hex_table_decl("pub const ROOK_MAGICS: [u64; Board::SIZE] = ["@, magics)
            + attack_table_decl(
            "pub const ROOK_ATTACKS: [[u64; 4096]; Board::SIZE] = ["@,
            attack_rows_of(rays, false, magics),
        )
    }
}

/// The most relevant blockers a slider's table makes room for: nine for a bishop, twelve for a
/// rook.
pub open spec fn most_ones(bishop: bool) -> usize {
    if bishop {
        9
    } else {
        12
    }
}

/// Every square's count of relevant blockers, taken from `rays`, lies between one and the most
/// the slider's table makes room for.
pub open spec fn counts_fit(rays: Seq<Vec<u64>>, bishop: bool) -> bool {
    forall|i: int| 0 <= i < 64 ==> 1 <= #[trigger] ones_of(rays, bishop)[i] <= most_ones(bishop)
}

/// The first tables written for a slider: its masks and their counts.
pub open spec fn slider_head(rays: Seq<Vec<u64>>, bishop: bool) -> Seq<char> {
    if bishop {
        hex_table_decl("pub const BISHOP_MASKS: [u64; Board::SIZE] = ["@, masks_of(rays, true))
            + count_table_decl("pub const BISHOP_MASK_ONES: [usize; Board::SIZE] = ["@, ones_of(rays, true))
    } else {
        hex_table_decl("pub const ROOK_MASKS: [u64; Board::SIZE] = ["@, masks_of(rays, false))
            + count_table_decl("pub const ROOK_MASK_ONES: [usize; Board::SIZE] = ["@, ones_of(rays, false))
    }
}

/// Whether every count lies between one and `most`.
fn counts_within(ones: &Vec<usize>, most: usize) -> (r: bool)
    ensures
        r == forall|i: int| 0 <= i < ones.len() ==> 1 <= #[trigger] ones@[i] <= most,
{
    let mut i: usize = 0;
    while i < ones.len()
        invariant
            i <= ones.len(),
            forall|k: int| 0 <= k < i ==> 1 <= #[trigger] ones@[k] <= most,
        decreases ones.len() - i,
    {
        if ones[i] < 1 || ones[i] > most {
            return false;
        }
        i = i + 1;
    }
    true
}

/// Writes the tables of one slider; `false` if a count is out of range or the magic search
/// gave up.
fn generate_slider(dest: &mut Vec<char>, rays: &Vec<Vec<u64>>, bishop: bool) -> (r: bool)
    requires
        rays_shaped(rays@),
    ensures
        r ==> counts_fit(rays@, bishop),
        r ==> exists|m: Seq<u64>|
            good_magics(rays@, bishop, m) && final(dest)@ == old(dest)@ + #[trigger] slider_tables(rays@, bishop, m),
        !r ==> final(dest)@ == old(dest)@ + slider_head(rays@, bishop),
{
    let ghost start = dest@;
    let masks = if bishop {
        generate_bishop_masks(dest, rays)
    } else {
        generate_rook_masks(dest, rays)
    };
    let ones = if bishop {
        generate_bishop_mask_ones(dest, rays)
    } else {
        generate_rook_mask_ones(dest, rays)
    };
    let ghost head = dest@;
    proof {
        assert(head =~= start + slider_head(rays@, bishop));
    }
    let most: usize = if bishop { 9 } else { 12 };
    if !counts_within(&ones, most) {
        return false;
    }
    proof {
        assert forall|i: int| 0 <= i < 64 implies 1 <= #[trigger] ones@[i] <= 12 && ones@[i] <= popcount(masks@[i]) by {
            assert(1 <= ones@[i] <= most);
        }
    }
    let found = if bishop {
        generate_bishop_magics(dest, &masks, &ones)
    } else {
        generate_rook_magics(dest, &masks, &ones)
    };
    let magics = match found {
        Some(m) => m,
        None => {
            return false;
        },
    };
    proof {
        assert(counts_fit(rays@, bishop));
        assert forall|i: int| 0 <= i < 64 implies (table_width(bishop) == 512 ==> #[trigger] ones@[i] <= 9) by {
            assert(1 <= ones@[i] <= most);
        }
    }
    let table = if bishop {
        generate_bishop_attacks(dest, &magics, &masks, &ones)
    } else {
        generate_rook_attacks(dest, &magics, &masks, &ones)
    };
    proof {
        assert(rows_view(table@) =~= attack_rows_of(rays@, bishop, magics@));
        assert(good_magics(rays@, bishop, magics@));
        assert(dest@ =~= start + slider_tables(rays@, bishop, magics@));
    }
    true
}

/// What the table writing leaves behind when it stops: from `before` to `after` it wrote the
/// rooks' masks and counts (their counts did not fit, or the search gave up), or all of the
/// rooks' tables and the bishops' masks and counts.
pub open spec fn magic_stopped(rays: Seq<Vec<u64>>, before: Seq<char>, after: Seq<char>) -> bool {
    ||| after == before + slider_head(rays, false)
    ||| exists|rm: Seq<u64>|
        good_magics(rays, false, rm) && after == before + #[trigger] slider_tables(rays, false, rm) + slider_head(rays, true)
}

/// Writes the mask, count, magic and attack tables of rooks and then of bishops; `false` if
/// the random search for magic multipliers gave up.
pub fn generate_magic(writer: &mut Vec<char>, rays: &Vec<Vec<u64>>) -> (r: bool)
    requires
        rays_shaped(rays@),
    ensures
        r ==> counts_fit(rays@, false) && counts_fit(rays@, true),
        r ==> exists|rm: Seq<u64>, bm: Seq<u64>|
            good_magics(rays@, false, rm) && good_magics(rays@, true, bm) && final(writer)@ == old(writer)@
                + #[trigger] slider_tables(rays@, false, rm) + #[trigger] slider_tables(rays@, true, bm),
        !r ==> magic_stopped(rays@, old(writer)@, final(writer)@),
{
    let ghost start = writer@;
    if !generate_slider(writer, rays, false) {
        return false;
    }
    let ghost mid = writer@;
    if !generate_slider(writer, rays, true) {
        proof {
            let rm = choose|m: Seq<u64>| good_magics(rays@, false, m) && mid == start + #[trigger] slider_tables(rays@, false, m);
            assert(writer@ == start + slider_tables(rays@, false, rm) + slider_head(rays@, true));
        }
        return false;
    }
    proof {
        let rm = choose|m: Seq<u64>| good_magics(rays@, false, m) && mid == start + #[trigger] slider_tables(rays@, false, m);
        let bm = choose|m: Seq<u64>| good_magics(rays@, true, m) && writer@ == mid + #[trigger] slider_tables(rays@, true, m);
        assert(writer@ =~= start + slider_tables(rays@, false, rm) + slider_tables(rays@, true, bm));
    }
    true
}

} // verus!
