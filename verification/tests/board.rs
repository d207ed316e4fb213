use ace::board::color::Color;
use ace::board::piece::{ColoredPiece, Piece};
use ace::board::zobrist::ZobristHasher;
use ace::board::Board;
use ace::bitboard::square::Square;
use ace::generation::mov::Move;
use ace::generation::new_gen::{NewMoveGenerator, NotInCheck, PawnGenerator, PieceGenerator};
use ace::board::fen_check::fen_fits;
use ace::generation::parse::move_text_fits;
use rand::rngs::StdRng;
use rand::SeedableRng;

fn hasher() -> ZobristHasher {
    let mut rand = StdRng::seed_from_u64(42);
    ZobristHasher::new(&mut rand)
}

fn play(board: &mut Board, moves: &str) {
    for text in moves.split(' ') {
        let mov = Move::parse(board, text).ok().unwrap();
        board.make(&mov);
    }
}

#[test]
fn board_fen_starting_position() {
    let fen = "rnbqkbnr/pppppppp/8/8/8/8/PPPPPPPP/RNBQKBNR w KQkq - 0 1";
    let hasher = hasher();
    let board = Board::from_str(fen, &hasher);
    println!("{:?}", board.is_ok());
}

#[test]
fn negated() {
    assert_eq!(!Color::White, Color::Black);
    assert_eq!(!Color::Black, Color::White);
}

#[test]
fn from_fen() {
    let cases = [
        ('P', Color::White, Piece::Pawn),
        ('p', Color::Black, Piece::Pawn),
        ('N', Color::White, Piece::Knight),
        ('n', Color::Black, Piece::Knight),
        ('B', Color::White, Piece::Bishop),
        ('b', Color::Black, Piece::Bishop),
        ('R', Color::White, Piece::Rook),
        ('r', Color::Black, Piece::Rook),
        ('Q', Color::White, Piece::Queen),
        ('q', Color::Black, Piece::Queen),
        ('K', Color::White, Piece::King),
        ('k', Color::Black, Piece::King),
    ];
    for (c, color, piece) in cases {
        let colored = ColoredPiece::from_fen(c).ok().unwrap();
        assert_eq!(colored.color, color);
        assert_eq!(colored.piece, piece);
    }
}

#[test]
fn to_fen() {
    let cases = [
        (Piece::Pawn, Color::White, 'P'),
        (Piece::Pawn, Color::Black, 'p'),
        (Piece::Knight, Color::White, 'N'),
        (Piece::Knight, Color::Black, 'n'),
        (Piece::Bishop, Color::White, 'B'),
        (Piece::Bishop, Color::Black, 'b'),
        (Piece::Rook, Color::White, 'R'),
        (Piece::Rook, Color::Black, 'r'),
        (Piece::Queen, Color::White, 'Q'),
        (Piece::Queen, Color::Black, 'q'),
        (Piece::King, Color::White, 'K'),
        (Piece::King, Color::Black, 'k'),
    ];
    for (piece, color, c) in cases {
        assert_eq!(ColoredPiece::new(piece, color).to_fen(), c);
    }
}

#[test]
fn swap_active() {
    let hasher = hasher();
    let mut board = Board::default(&hasher);
    assert_eq!(board.gamestate.active, Color::White);

    board.swap_active();
    assert_eq!(board.gamestate.active, Color::Black);

    board.swap_active();
    assert_eq!(board.gamestate.active, Color::White);
}

fn bits(board: &Board, color: Color, piece: Piece) -> u64 {
    board.get_piece_board(color, piece).0
}

fn check_boards(board: &Board, expected: [u64; 12]) {
    let pieces = [Piece::King, Piece::Pawn, Piece::Knight, Piece::Bishop, Piece::Rook, Piece::Queen];
    for (i, piece) in pieces.iter().enumerate() {
        assert_eq!(bits(board, Color::White, *piece), expected[2 * i]);
        assert_eq!(bits(board, Color::Black, *piece), expected[2 * i + 1]);
    }
}

#[test]
fn tests_fen_starting_position() {
    let fen = "rnbqkbnr/pppppppp/8/8/8/8/PPPPPPPP/RNBQKBNR w KQkq - 0 1";
    let hasher = hasher();
    let board = Board::from_str(fen, &hasher).ok().unwrap();
    check_boards(&board, [
        0x10, 0x1000000000000000, 0xff00, 0xff000000000000, 0x42, 0x4200000000000000, 0x24,
        0x2400000000000000, 0x81, 0x8100000000000000, 0x8, 0x800000000000000,
    ]);
}

#[test]
fn fen_custom_1() {
    let fen = "rnbq1bnr/pppk1ppp/8/1B1pp3/3PP3/5P2/PPP3PP/RNBQK1NR b KQ - 2 4";
    let hasher = hasher();
    let board = Board::from_str(fen, &hasher).ok().unwrap();
    check_boards(&board, [
        0x10, 0x8000000000000, 0x1820c700, 0xe7001800000000, 0x42, 0x4200000000000000,
        0x200000004, 0x2400000000000000, 0x81, 0x8100000000000000, 0x8, 0x800000000000000,
    ]);
}

#[test]
fn fen_custom_2() {
    let fen = "2q1kb2/1P1ppp1r/Q6p/PB4pn/4PP2/8/P5PP/RNB1K1NR b KQ - 0 16";
    let hasher = hasher();
    let board = Board::from_str(fen, &hasher).ok().unwrap();
    check_boards(&board, [
        0x10, 0x1000000000000000, 0x200013000c100, 0x38804000000000, 0x42, 0x8000000000,
        0x200000004, 0x2000000000000000, 0x81, 0x80000000000000, 0x10000000000, 0x400000000000000,
    ]);
}

#[test]
fn fen_custom_3() {
    let fen = "rn2kbnr/pp5p/B1p5/1P2P3/3p2p1/6P1/PBPPb3/RN2K1q1 w Qkq - 0 17";
    let hasher = hasher();
    let board = Board::from_str(fen, &hasher).ok().unwrap();
    check_boards(&board, [
        0x10, 0x1000000000000000, 0x1200400d00, 0x83040048000000, 0x2, 0x4200000000000000,
        0x10000000200, 0x2000000000001000, 0x1, 0x8100000000000000, 0x0, 0x40,
    ]);
}

#[test]
fn fen_custom_4() {
    let hasher = hasher();
    let mut board = Board::default(&hasher);
    play(
        &mut board,
        "d2d4 g7g5 e2e4 g5g4 g1f3 a7a6 b1c3 b8c6 f1b5 e7e6 b5c6 g8f6 c6d7 e8d7 c1g5 d7c6 d4d5 c6b6 c3a4",
    );
    let fen = "r1bq1b1r/1pp2p1p/pk2pn2/3P2B1/N3P1p1/5N2/PPP2PPP/R2QK2R b KQ - 2 10";
    assert_eq!(board.to_fen(), fen);
    check_boards(&board, [
        0x10, 0x20000000000, 0x81000e700, 0xa6110040000000, 0x1200000, 0x200000000000,
        0x4000000000, 0x2400000000000000, 0x81, 0x8100000000000000, 0x8, 0x800000000000000,
    ]);
}

#[test]
fn check_startpos() {
    let hasher = hasher();
    let mut board = Board::default(&hasher);
    let moves = "d2d4 d7d5 e2e4 e7e5 c2c3 e5d4 f1b5 e8e7 g1f3 d5e4 f3d4 e4e3 e1g1 e3f2 f1f2";
    for text in moves.split(' ') {
        let mov = Move::parse(&board, text).ok().unwrap();
        board.make(&mov);
        assert_eq!(board.gamestate.hash, board.board_hash());
    }
    let fen = "rnbq1bnr/ppp1kppp/8/1B6/3N4/2P5/PP3RPP/RNBQ2K1 b - - 0 8";
    assert_eq!(board.to_fen(), fen);
}

#[test]
fn not_same_hash_1() {
    let hasher = hasher();
    let first = "rnbqkbnr/1p1ppppp/8/P1p5/8/P7/2PPPPPP/RNBQKBNR b KQkq - 0 3";
    let first_hash = Board::from_str(first, &hasher).ok().unwrap().gamestate.hash;
    let second = "rnbqkbnr/1p1ppppp/8/p1P5/8/P7/2PPPPPP/RNBQKBNR b KQkq - 0 3";
    let second_hash = Board::from_str(second, &hasher).ok().unwrap().gamestate.hash;
    assert_ne!(first_hash, second_hash);
}

#[test]
fn not_same_hash_2() {
    let hasher = hasher();
    let first = "rn1qkbnr/ppp1pppp/8/3p4/8/PP5N/2PPPPPP/RNBQKB1R b KQkq - 2 3";
    let first_hash = Board::from_str(first, &hasher).ok().unwrap().gamestate.hash;
    let second = "rn1qkbnr/ppp1pppp/8/3p4/8/PP5b/2PPPPPP/RNBQKB1R b KQkq - 0 3";
    let second_hash = Board::from_str(second, &hasher).ok().unwrap().gamestate.hash;
    assert_ne!(first_hash, second_hash);
}

#[test]
fn fen_round_trip() {
    let hasher = hasher();
    let fens = [
        "rnbqkbnr/pppppppp/8/8/8/8/PPPPPPPP/RNBQKBNR w KQkq - 0 1",
        "r1bq1b1r/1pp2p1p/pk2pn2/3P2B1/N3P1p1/5N2/PPP2PPP/R2QK2R b KQ - 2 10",
        "8/8/8/8/8/8/8/K6k w - - 0 1",
    ];
    for fen in fens {
        assert_eq!(Board::from_str(fen, &hasher).ok().unwrap().to_fen(), fen);
    }
}

#[test]
fn fen_errors() {
    let hasher = hasher();
    assert!(Board::from_str("rnbqkbnr/pppppppp/8/8/8/8/PPPPPPPP/RNBQKBNR w KQkq -", &hasher).is_err());
    assert!(Board::from_str("rnbqkbnr/pppppppp/8/8/8/8/PPPPPPPP/RNBQKBNX w KQkq - 0 1", &hasher).is_err());
    assert!(Board::from_str("rnbqkbnr/pppppppp/8/8/8/8/PPPPPPPP/RNBQKBNR x KQkq - 0 1", &hasher).is_err());
    assert!(Board::from_str("rnbqkbnr/pppppppp/8/8/8/8/PPPPPPPP/RNBQKBNR w KQkz - 0 1", &hasher).is_err());
    assert!(Board::from_str("rnbqkbnr/pppppppp/8/8/8/8/PPPPPPPP/RNBQKBNR w KQkq - x 1", &hasher).is_err());
}

#[test]
fn make_then_unmake() {
    let hasher = hasher();
    let mut board = Board::default(&hasher);
    let start_fen = board.to_fen();
    let start_hash = board.gamestate.hash;
    let mov = Move::parse(&board, "e2e4").ok().unwrap();
    board.make(&mov);
    assert_ne!(board.to_fen(), start_fen);
    assert_eq!(board.gamestate.hash, board.board_hash());
    board.unmake(&mov);
    assert_eq!(board.to_fen(), start_fen);
    assert_eq!(board.gamestate.hash, start_hash);
}

#[test]
fn null_move_round_trip() {
    let hasher = hasher();
    let mut board = Board::default(&hasher);
    let start_fen = board.to_fen();
    board.make_null();
    assert_eq!(board.gamestate.active, Color::Black);
    assert_eq!(board.gamestate.hash, board.board_hash());
    board.unmake_null();
    assert_eq!(board.to_fen(), start_fen);
}

#[test]
fn legal_moves_at_start() {
    let hasher = hasher();
    let board = Board::default(&hasher);
    assert_eq!(board.get_legal_moves().len(), 20);
    let mut empty_side = Board::from_str("8/8/8/8/8/8/8/K6k w - - 0 1", &hasher).ok().unwrap();
    assert_eq!(empty_side.get_legal_moves().len(), 3);
    empty_side.swap_active();
    assert_eq!(empty_side.get_legal_moves().len(), 3);
}

#[test]
fn make_moves_keeps_moves_before_an_error() {
    let hasher = hasher();
    let mut board = Board::default(&hasher);
    let moves = vec!["e2e4".to_string(), "e7e5".to_string()];
    let made = board.make_moves(&moves).ok().unwrap();
    assert_eq!(made.len(), 2);
    assert_eq!(board.history.len(), 2);

    let mut board = Board::default(&hasher);
    let moves = vec!["e2e4".to_string(), "e2".to_string(), "d2d4".to_string()];
    assert!(board.make_moves(&moves).is_err());
    assert_eq!(board.history.len(), 1);
    assert_eq!(board.gamestate.active, Color::Black);

    let mut board = Board::default(&hasher);
    let moves = vec!["e3e4".to_string()];
    assert!(board.make_moves(&moves).is_err());
    assert_eq!(board.history.len(), 0);
}

#[test]
fn square_names_read_back() {

    for index in 0..64u8 {
        let square = Square::by_index(index);
        let name = square.to_string();
        assert_eq!(Square::from_str(&name).ok().unwrap(), square);
    }
}

/// Makes each king move of `fen` and checks that the other side does not attack the square
/// the king went to; returns the target squares of the king moves.
fn king_targets_unattacked(fen: &str) -> Vec<u8> {
    let hasher = hasher();
    let board = Board::from_str(fen, &hasher).ok().unwrap();
    let mut targets = Vec::new();
    for mov in board.get_legal_moves() {
        if mov.piece() == Piece::King {
            let mut after = Board::from_str(fen, &hasher).ok().unwrap();
            after.make(&mov);
            after.make_null();
            let to = ace::bitboard::Bitboard::from_square(mov.to());
            assert!(!after.attacked().is_set(to));
            targets.push(mov.to().index);
        }
    }
    targets.sort();
    targets
}

#[test]
fn king_moves_leave_the_king_unattacked() {
    // The rook on d2 guards the d-file and the second rank: the king may take it or go to f1.
    assert_eq!(king_targets_unattacked("4k3/8/8/8/8/8/3r4/4K3 w - - 0 1"), vec![5, 11]);
    // The rook on f8 guards f1, so castling short is not offered; castling long is.
    let targets = king_targets_unattacked("4kr2/8/8/8/8/8/8/R3K2R w KQ - 0 1");
    assert!(targets.contains(&2));
    assert!(!targets.contains(&6));
    assert!(!targets.contains(&5));
}

#[test]
fn moves_in_check_end_the_check() {
    let hasher = hasher();
    // The rook on e8 checks along the e-file: the only other move is the block on e2.
    let board = Board::from_str("4r2k/8/8/8/8/8/R7/4K3 w - - 0 1", &hasher).ok().unwrap();
    let others: Vec<Move> = board.get_legal_moves().into_iter().filter(|m| m.piece() != Piece::King).collect();
    assert_eq!(others.len(), 1);
    assert_eq!(others[0].to().index, 12);
    // Against two checkers only the king moves.
    let board = Board::from_str("4r2k/8/8/8/8/5n2/R7/4K3 w - - 0 1", &hasher).ok().unwrap();
    assert!(board.get_legal_moves().iter().all(|m| m.piece() == Piece::King));
}

#[test]
fn en_passant_that_opens_the_rank_is_not_offered() {
    let hasher = hasher();
    let board = Board::from_str("8/8/8/KPp4r/8/8/8/7k w - c6 0 1", &hasher).ok().unwrap();
    assert!(board.get_legal_moves().iter().all(|m| !m.is_en_passant()));
    let board = Board::from_str("8/8/8/1Pp4r/8/8/8/K6k w - c6 0 1", &hasher).ok().unwrap();
    assert!(board.get_legal_moves().iter().any(|m| m.is_en_passant()));
}

/// Makes every generated move of `fen` and checks that the mover's king is not attacked
/// afterwards; returns how many moves there were.
fn all_moves_leave_king_unattacked(fen: &str) -> usize {
    let hasher = hasher();
    let board = Board::from_str(fen, &hasher).ok().unwrap();
    let active = board.gamestate.active;
    let moves = board.get_legal_moves();
    for mov in moves.iter() {
        let mut after = Board::from_str(fen, &hasher).ok().unwrap();
        after.make(mov);
        after.make_null();
        let king = after.get_king_square(active);
        let king_board = ace::bitboard::Bitboard::from_square(king);
        assert!(!after.attacked().is_set(king_board));
    }
    moves.len()
}

#[test]
fn moves_without_pins_leave_the_king_unattacked() {
    let kiwipete = "r3k2r/p1ppqpb1/bn2pnp1/3PN3/1p2P3/2N2Q1p/PPPBBPPP/R3K2R w KQkq - 0 1";
    assert_eq!(all_moves_leave_king_unattacked(kiwipete), 48);
    assert_eq!(all_moves_leave_king_unattacked("4r2k/8/8/8/8/8/R7/4K3 w - - 0 1"), 5);
}

/// The text with every colour escape sequence taken out.
fn without_colours(text: &str) -> String {
    let mut out = String::new();
    let mut in_escape = false;
    for c in text.chars() {
        if in_escape {
            if c == 'm' {
                in_escape = false;
            }
        } else if c == '\u{1b}' {
            in_escape = true;
        } else {
            out.push(c);
        }
    }
    out
}

#[test]
fn board_picture_of_the_start() {
    let hasher = hasher();
    let board = Board::default(&hasher);
    let picture = without_colours(&board.to_string());
    let back = "RNBQKBNR";
    let mut expected = String::new();
    for rank in (0..8).rev() {
        for line in 0..3 {
            if line == 1 {
                expected.push_str(&format!("{} ", rank + 1));
            } else {
                expected.push_str("  ");
            }
            for file in 0..8 {
                let c = if line != 1 {
                    ' '
                } else if rank == 0 {
                    back.chars().nth(file).unwrap()
                } else if rank == 1 {
                    'P'
                } else if rank == 6 {
                    'p'
                } else if rank == 7 {
                    back.chars().nth(file).unwrap().to_ascii_lowercase()
                } else {
                    ' '
                };
                expected.push_str(&format!("   {}   ", c));
            }
            expected.push('\n');
        }
    }
    expected.push_str("     a      b      c      d      e      f      g      h\n");
    assert_eq!(picture, expected);
}

#[test]
fn move_text_counts_bytes() {
    let hasher = hasher();
    let board = Board::default(&hasher);
    // Text after the fourth byte of a six-byte text is ignored.
    let mov = Move::parse(&board, "e2e4é").ok().unwrap();
    assert_eq!(mov.from().index, 12);
    assert_eq!(mov.to().index, 28);
    assert!(!mov.is_promotion());
    // A two-byte character takes the place of a square's two bytes.
    assert!(Move::parse(&board, "é2e4").is_err());
    // Two two-byte characters make four bytes; the first is no square.
    assert!(Move::parse(&board, "éé").is_err());
}

#[test]
fn pawn_generator_by_name() {
    let hasher = hasher();
    let board = Board::default(&hasher);
    let state = board.get_pin_check_state();
    let mut generator = NewMoveGenerator { moves: Vec::new(), size: 0, index: 0 };
    PawnGenerator::legals::<NotInCheck>(&mut generator, &board, state);
    assert_eq!(generator.len(), 16);
}

#[test]
fn input_deciders() {
    assert!(fen_fits("rnbqkbnr/pppppppp/8/8/8/8/PPPPPPPP/RNBQKBNR w KQkq - 0 1"));
    // Nine squares on a rank run off the board.
    assert!(!fen_fits("rnbqkbnrp/pppppppp/8/8/8/8/PPPPPPPP/RNBQKBNR w KQkq - 0 1"));
    // Not six fields: reading fails without running off the board.
    assert!(fen_fits("8/8/8"));
    assert!(move_text_fits("e2e4"));
    assert!(move_text_fits("xyz"));
    assert!(!move_text_fits("h9e4"));
    assert!(!move_text_fits("e0e4"));
    // A three-byte character is cut by the first two bytes.
    assert!(!move_text_fits("€2e4"));
    assert!(move_text_fits("é2e4"));
}

#[test]
fn fen_reads_and_rewrites() {
    let hasher = hasher();
    let fen = "r3k2r/p1ppqpb1/bn2pnp1/3PN3/1p2P3/2N2Q1p/PPPBBPPP/R3K2R w KQkq - 0 1";
    let board = Board::from_str(fen, &hasher).ok().unwrap();
    assert_eq!(board.to_fen(), fen);
}
