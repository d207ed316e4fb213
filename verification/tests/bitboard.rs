use ace::bitboard::constants::{A1, A2, B1, D4, E4, E5, F6, H8};
use ace::bitboard::square::Square;
use ace::bitboard::Bitboard;

#[test]
fn tests_index() {
    assert_eq!(Square::by_index(A1).index, 0);
    assert_eq!(Square::by_index(H8).index, 63);
    assert_eq!(Square::by_index(A2).index, 8);
    assert_eq!(Square::by_index(D4).index, 27);
    assert_eq!(Square::by_index(F6).index, 45);

    let bitboard = Bitboard::index(10);
    assert_eq!(bitboard.get_leading_index(), 10);
    assert_eq!(bitboard.get_trailing_index(), 10);

    let bitboard = Bitboard::index(63);
    assert_eq!(bitboard.get_leading_index(), 63);
    assert_eq!(bitboard.get_trailing_index(), 63);

    let bitboard = Bitboard::index(0);
    assert_eq!(bitboard.get_leading_index(), 0);
    assert_eq!(bitboard.get_trailing_index(), 0);
}

#[test]
fn rank_file() {
    let square = Square::by_index(A1);
    assert_eq!(square.rank(), 0);
    assert_eq!(square.file(), 0);

    let square = Square::by_index(H8);
    assert_eq!(square.rank(), 7);
    assert_eq!(square.file(), 7);

    let square = Square::by_index(A2);
    assert_eq!(square.rank(), 1);
    assert_eq!(square.file(), 0);

    let square = Square::by_index(D4);
    assert_eq!(square.rank(), 3);
    assert_eq!(square.file(), 3);

    let square = Square::by_index(F6);
    assert_eq!(square.rank(), 5);
    assert_eq!(square.file(), 5);
}

#[test]
fn in_board() {
    assert!(Square::by_index(A1).in_board());
    assert!(Square::by_index(H8).in_board());
    assert!(Square::by_index(A2).in_board());
    assert!(Square::by_index(D4).in_board());
    assert!(Square::by_index(E4).in_board());
}

#[test]
fn from_str() {
    let square = Square::from_str("a1").ok().unwrap();
    assert_eq!(square, Square::by_index(A1));

    let square = Square::from_str("h8").ok().unwrap();
    assert_eq!(square, Square::by_index(H8));

    let square = Square::from_str("b1").ok().unwrap();
    assert_eq!(square, Square::by_index(B1));
}

#[test]
fn display() {
    assert_eq!(Square::by_index(A1).to_string(), "a1");
    assert_eq!(Square::by_index(H8).to_string(), "h8");
    assert_eq!(Square::by_index(B1).to_string(), "b1");
}

#[test]
fn is_set() {
    let bitboard = Bitboard::index(0);
    assert!(bitboard.is_set(Bitboard::from_square(Square::by_index(A1))));

    let bitboard = Bitboard::index(63);
    assert!(bitboard.is_set(Bitboard::from_square(Square::by_index(H8))));

    let bitboard = Bitboard::from_bits(0x1000000000);
    assert!(bitboard.is_set(Bitboard::from_square(Square::by_index(E5))));
}

#[test]
fn square_from_str_errors() {
    assert!(Square::from_str("").is_err());
    assert!(Square::from_str("a").is_err());
    assert!(Square::from_str("A1").is_err());
    assert!(Square::from_str("ax").is_err());
    assert_eq!(Square::from_str("e4").ok().unwrap().index, 28);
}

#[test]
fn pop_and_count() {
    let mut bitboard = Bitboard::from_bits(0b1010_0100);
    assert_eq!(bitboard.count_ones(), 3);
    assert_eq!(bitboard.pop_trailing().index, 2);
    assert_eq!(bitboard.pop_leading().index, 7);
    assert_eq!(bitboard.count_ones(), 1);
    assert_eq!(bitboard.get_squares().len(), 1);
}

#[test]
fn bitboard_picture() {
    let picture = Bitboard::index(0).to_string();
    let mut expected = String::new();
    for rank in (0..8).rev() {
        expected.push_str(&format!("  {}", rank + 1));
        for file in 0..8 {
            expected.push_str(if rank == 0 && file == 0 { " 1" } else { " ." });
        }
        expected.push('\n');
    }
    expected.push_str("    a b c d e f g h\n");
    assert_eq!(picture, expected);
}
