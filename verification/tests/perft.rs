use ace::board::zobrist::ZobristHasher;
use ace::board::Board;
use ace::hashtable::perft::{PerftEntry, PerftStatsEntry};
use ace::hashtable::HashTable;
use ace::perft::{divide, perft_normal, perft_stats};
use rand::rngs::StdRng;
use rand::SeedableRng;

fn hasher() -> ZobristHasher {
    let mut rand = StdRng::seed_from_u64(42);
    ZobristHasher::new(&mut rand)
}

#[test]
fn perft_startpos_0() {
    let hasher = hasher();
    let mut board = Board::default(&hasher);
    let mut cache: HashTable<PerftStatsEntry> = HashTable::entries(1024);
    let result = perft_stats::<false>(&mut board, &mut cache, 0);
    assert_eq!(result.nodes, 1);
    assert_eq!(result.captures, 0);
    assert_eq!(result.en_passants, 0);
    assert_eq!(result.castles, 0);
    assert_eq!(result.promotions, 0);
}

#[test]
fn perft_startpos_1() {
    let hasher = hasher();
    let mut board = Board::default(&hasher);
    let mut cache: HashTable<PerftStatsEntry> = HashTable::entries(1024);
    let result = perft_stats::<false>(&mut board, &mut cache, 1);
    assert_eq!(result.nodes, 20);
    assert_eq!(result.captures, 0);
    assert_eq!(result.en_passants, 0);
    assert_eq!(result.castles, 0);
    assert_eq!(result.promotions, 0);
}

#[test]
fn perft_startpos_2() {
    let hasher = hasher();
    let mut board = Board::default(&hasher);
    let mut cache: HashTable<PerftStatsEntry> = HashTable::entries(1024);
    let result = perft_stats::<false>(&mut board, &mut cache, 2);
    assert_eq!(result.nodes, 400);
    assert_eq!(result.captures, 0);
    assert_eq!(result.en_passants, 0);
    assert_eq!(result.castles, 0);
    assert_eq!(result.promotions, 0);
}

#[test]
fn perft_startpos_3() {
    let hasher = hasher();
    let mut board = Board::default(&hasher);
    let mut cache: HashTable<PerftStatsEntry> = HashTable::entries(1024);
    let result = perft_stats::<false>(&mut board, &mut cache, 3);
    assert_eq!(result.nodes, 8902);
    assert_eq!(result.captures, 34);
    assert_eq!(result.en_passants, 0);
    assert_eq!(result.castles, 0);
    assert_eq!(result.promotions, 0);
}

#[test]
fn perft_startpos_4() {
    let hasher = hasher();
    let mut board = Board::default(&hasher);
    let mut cache: HashTable<PerftStatsEntry> = HashTable::entries(1024);
    let result = perft_stats::<false>(&mut board, &mut cache, 4);
    assert_eq!(result.nodes, 197281);
    assert_eq!(result.captures, 1576);
    assert_eq!(result.en_passants, 0);
    assert_eq!(result.castles, 0);
    assert_eq!(result.promotions, 0);
}

#[test]
fn perft_startpos_5() {
    let hasher = hasher();
    let mut board = Board::default(&hasher);
    let mut cache: HashTable<PerftStatsEntry> = HashTable::entries(1 << 20);
    let result = perft_stats::<true>(&mut board, &mut cache, 5);
    assert_eq!(result.nodes, 4865609);
    assert_eq!(result.captures, 82719);
    assert_eq!(result.en_passants, 258);
    assert_eq!(result.castles, 0);
    assert_eq!(result.promotions, 0);
}

#[test]
fn pinned_pawn_cannot_step() {
    // After 1.e4 e6 2.Qh5 the pawn on f7 shields its king from the queen and may not move.
    let hasher = hasher();
    let fen = "rnbqkbnr/pppp1ppp/4p3/7Q/4P3/8/PPPP1PPP/RNB1KBNR b KQkq - 1 2";
    let board = Board::from_str(fen, &hasher).ok().unwrap();
    let moves = board.get_legal_moves();
    for m in moves.iter() {
        assert!(!(m.from().index == 53));
    }
}

#[test]
fn pinned_rook_keeps_to_its_file() {
    // The rook on e2 stands between its king on e1 and the rook on e8.
    let hasher = hasher();
    let fen = "k3r3/8/8/8/8/8/4R3/4K3 w - - 0 1";
    let board = Board::from_str(fen, &hasher).ok().unwrap();
    let moves = board.get_legal_moves();
    let from_e2: Vec<_> = moves.iter().filter(|m| m.from().index == 12).collect();
    assert_eq!(from_e2.len(), 6);
    for m in from_e2 {
        assert_eq!(m.to().index % 8, 4);
    }
}

#[test]
fn kiwipete_moves_listed_once() {
    let hasher = hasher();
    let fen = "r3k2r/p1ppqpb1/bn2pnp1/3PN3/1p2P3/2N2Q1p/PPPBBPPP/R3K2R w KQkq - 0 1";
    let board = Board::from_str(fen, &hasher).ok().unwrap();
    let moves = board.get_legal_moves();
    assert_eq!(moves.len(), 48);
    for i in 0..moves.len() {
        for j in (i + 1)..moves.len() {
            assert_ne!(moves[i].0, moves[j].0);
        }
    }
}

#[test]
fn perft_hashed_matches_plain() {
    let hasher = hasher();
    let mut board = Board::default(&hasher);
    let fen = board.to_fen();
    let mut cache: HashTable<PerftEntry> = HashTable::entries(1 << 12);
    let plain = perft_normal::<false>(&mut board, &mut cache, 3);
    let hashed = perft_normal::<true>(&mut board, &mut cache, 3);
    let again = perft_normal::<true>(&mut board, &mut cache, 3);
    assert_eq!(plain, 8902);
    assert_eq!(hashed, 8902);
    assert_eq!(again, 8902);
    assert_eq!(board.to_fen(), fen);
}

#[test]
fn divide_startpos() {
    let hasher = hasher();
    let mut board = Board::default(&hasher);
    let mut cache: HashTable<PerftEntry> = HashTable::entries(1024);
    let (moves, total) = divide::<false>(&mut board, &mut cache, 2);
    assert_eq!(moves.len(), 20);
    assert_eq!(total, 400);
    for (_, nodes) in moves {
        assert_eq!(nodes, 20);
    }
}

#[test]
fn perft_kiwipete_1() {
    let hasher = hasher();
    let fen = "r3k2r/p1ppqpb1/bn2pnp1/3PN3/1p2P3/2N2Q1p/PPPBBPPP/R3K2R w KQkq - 0 1";
    let mut board = Board::from_str(fen, &hasher).ok().unwrap();
    let mut cache: HashTable<PerftStatsEntry> = HashTable::entries(1024);
    let result = perft_stats::<false>(&mut board, &mut cache, 1);
    assert_eq!(result.nodes, 48);
    assert_eq!(result.captures, 8);
    assert_eq!(result.castles, 2);
}

#[test]
fn perft_kiwipete_2() {
    let hasher = hasher();
    let fen = "r3k2r/p1ppqpb1/bn2pnp1/3PN3/1p2P3/2N2Q1p/PPPBBPPP/R3K2R w KQkq - 0 1";
    let mut board = Board::from_str(fen, &hasher).ok().unwrap();
    let mut cache: HashTable<PerftStatsEntry> = HashTable::entries(1024);
    let result = perft_stats::<false>(&mut board, &mut cache, 2);
    assert_eq!(result.nodes, 2039);
    assert_eq!(result.captures, 351);
    assert_eq!(result.en_passants, 1);
    assert_eq!(result.castles, 91);
    assert_eq!(result.promotions, 0);
}

#[test]
fn castling_needs_king_and_rook() {
    let hasher = hasher();
    // The right is kept, but no rook stands on h1: no castling is listed.
    let board = Board::from_str("4k3/8/8/8/8/8/8/4K3 w K - 0 1", &hasher).ok().unwrap();
    assert!(board.get_legal_moves().iter().all(|m| !m.is_castling()));
    // With the rook there, e1g1 is listed.
    let board = Board::from_str("4k3/8/8/8/8/8/8/4K2R w K - 0 1", &hasher).ok().unwrap();
    let castles: Vec<_> = board.get_legal_moves().into_iter().filter(|m| m.is_castling()).collect();
    assert_eq!(castles.len(), 1);
    assert_eq!(castles[0].to().index, 6);
}

#[test]
fn castlings_queenside_first() {
    let hasher = hasher();
    let board = Board::from_str("4k3/8/8/8/8/8/8/R3K2R w KQ - 0 1", &hasher).ok().unwrap();
    let castles: Vec<_> = board.get_legal_moves().into_iter().filter(|m| m.is_castling()).collect();
    assert_eq!(castles.len(), 2);
    assert_eq!(castles[0].to().index, 2);
    assert_eq!(castles[1].to().index, 6);
}

#[test]
fn divide_hashed_matches_plain() {
    let hasher = hasher();
    let mut board = Board::default(&hasher);
    let mut cache: HashTable<PerftEntry> = HashTable::entries(1 << 12);
    let (plain, plain_total) = divide::<false>(&mut board, &mut cache, 3);
    let (hashed, hashed_total) = divide::<true>(&mut board, &mut cache, 3);
    assert_eq!(plain_total, 8902);
    assert_eq!(hashed_total, 8902);
    assert_eq!(plain.len(), hashed.len());
    for (a, b) in plain.iter().zip(hashed.iter()) {
        assert_eq!(a.0 .0, b.0 .0);
        assert_eq!(a.1, b.1);
    }
}

#[test]
fn stats_hashed_matches_plain() {
    let hasher = hasher();
    let mut board = Board::default(&hasher);
    let mut cache: HashTable<PerftStatsEntry> = HashTable::entries(1 << 12);
    let plain = perft_stats::<false>(&mut board, &mut cache, 3);
    let hashed = perft_stats::<true>(&mut board, &mut cache, 3);
    let again = perft_stats::<true>(&mut board, &mut cache, 3);
    assert_eq!(plain, hashed);
    assert_eq!(plain, again);
    assert_eq!(hashed.captures, 34);
}
