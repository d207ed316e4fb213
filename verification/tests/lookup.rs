use ace::lookup::generate::{
    generate_direction, generate_king_moves, generate_pawn_pushes, generate_rays, get_direction_index,
};
use ace::lookup::magic::{
    generate_bishop_attacks, generate_bishop_magics, generate_bishop_mask_ones, generate_bishop_masks,
    generate_rook_mask_ones, generate_rook_masks,
};
use ace::lookup::bishop_attacks;

fn text(v: &[char]) -> String {
    v.iter().collect()
}

#[test]
fn king_table_text() {
    let mut out: Vec<char> = Vec::new();
    generate_king_moves(&mut out);
    let s = text(&out);
    assert!(s.starts_with("\n#[rustfmt::skip]\npub const KING_MOVES: [u64; Board::SIZE] = [\n\t302, 705, E0A, "));
    assert!(s.ends_with("\n];\n"));
    assert_eq!(s.matches(", ").count(), 64);
}

#[test]
fn pawn_push_table_text() {
    let mut out: Vec<char> = Vec::new();
    generate_pawn_pushes(&mut out);
    let s = text(&out);
    assert!(s.starts_with("\n#[rustfmt::skip]\npub const PAWN_PUSHES: [[u64; Board::SIZE]; Color::COUNT] = [[\n\t0, 0, "));
    // The white table starts with a1's single step to a2.
    assert!(s.contains("\n], [\n\t100, 200, 400, "));
}

#[test]
fn direction_table_text() {
    let mut out: Vec<char> = Vec::new();
    generate_direction(&mut out);
    let s = text(&out);
    assert!(s.contains("\n\t[ Direction::Nowhere, Direction::East, Direction::East, "));
    assert_eq!(get_direction_index(0, 9), Some(2));
    assert_eq!(get_direction_index(0, 1), Some(4));
    assert_eq!(get_direction_index(63, 0), Some(5));
    assert_eq!(get_direction_index(0, 10), None);
    assert_eq!(get_direction_index(5, 5), None);
}

#[test]
fn masks_from_rays() {
    let mut out: Vec<char> = Vec::new();
    let rays = generate_rays(&mut out);
    assert_eq!(rays.len(), 64);
    // North from a1: a2 to a8.
    assert_eq!(rays[0][1], 0x0101010101010100);
    let rook_masks = generate_rook_masks(&mut out, &rays);
    assert_eq!(rook_masks[0], 0x000101010101017E);
    let rook_ones = generate_rook_mask_ones(&mut out, &rays);
    assert_eq!(rook_ones[0], 12);
    assert_eq!(rook_ones[27], 10);
    let bishop_ones = generate_bishop_mask_ones(&mut out, &rays);
    assert_eq!(bishop_ones[0], 6);
    assert_eq!(bishop_ones[27], 9);
    let s = text(&out);
    assert!(s.contains("pub const ROOK_MASKS: [u64; Board::SIZE] = [\n\t0x101010101017E, "));
    assert!(s.contains("pub const ROOK_MASK_ONES: [usize; Board::SIZE] = [\n\t12, 11, 11, "));
}

#[test]
fn bishop_magics_answer_every_blocker_choice() {
    let mut out: Vec<char> = Vec::new();
    let rays = generate_rays(&mut out);
    let masks = generate_bishop_masks(&mut out, &rays);
    let ones = generate_bishop_mask_ones(&mut out, &rays);
    let magics = generate_bishop_magics(&mut out, &masks, &ones).unwrap();
    // Every multiplier kept leaves at least six set bits in the top byte of the product.
    for i in 0..64 {
        assert!((masks[i].wrapping_mul(magics[i]) & 0xFF00000000000000).count_ones() >= 6);
    }
    let table = generate_bishop_attacks(&mut out, &magics, &masks, &ones);
    for sq in [0u8, 27, 63] {
        let i = sq as usize;
        // Every subset of the mask, including the empty one and the full one.
        let mut subset: u64 = 0;
        loop {
            let slot = (subset.wrapping_mul(magics[i]) >> (64 - ones[i] as u64)) as usize;
            assert_eq!(table[i][slot], bishop_attacks(sq, subset));
            subset = subset.wrapping_sub(masks[i]) & masks[i];
            if subset == 0 {
                break;
            }
        }
    }
}
