use vstd::prelude::*;

use crate::bitboard::square::Square;

use super::color::Color;
use super::piece::{ColoredPiece, Piece};
use super::zobrist::ZobristHasher;
use super::{Board, GameState};

verus! {

/// The piece that starts on file `f` of a back rank: rook, knight, bishop, queen, king,
/// bishop, knight, rook.
pub open spec fn back_rank_piece(f: int) -> Piece {
    if f == 0 || f == 7 {
        Piece::Rook
    } else if f == 1 || f == 6 {
        Piece::Knight
    } else if f == 2 || f == 5 {
        Piece::Bishop
    } else if f == 3 {
        Piece::Queen
    } else {
        Piece::King
    }
}

/// The squares of the starting position.
pub open spec fn start_pieces() -> Seq<Option<ColoredPiece>> {
    Seq::new(
        64,
        |j: int|
            if j < 8 {
                Some(ColoredPiece { piece: back_rank_piece(j), color: Color::White })
            } else if j < 16 {
                Some(ColoredPiece { piece: Piece::Pawn, color: Color::White })
            } else if j < 48 {
                None
            } else if j < 56 {
                Some(ColoredPiece { piece: Piece::Pawn, color: Color::Black })
            } else {
                Some(ColoredPiece { piece: back_rank_piece(j - 56), color: Color::Black })
            },
    )
}

/// The game state of the starting position (the hash aside): White to move, every castling
/// right, no en passant square, move number one.
pub open spec fn start_state() -> GameState {
    GameState {
        white_kingside: true,
        white_queenside: true,
        black_kingside: true,
        black_queenside: true,
        fullmoves: 1,
        ..GameState::initial()
    }
}

fn back_rank(file: u8) -> (r: Piece)
    requires
        file < 8,
    ensures
        r == back_rank_piece(file as int),
        r.is_real(),
{
    if file == 0 || file == 7 {
        Piece::Rook
    } else if file == 1 || file == 6 {
        Piece::Knight
    } else if file == 2 || file == 5 {
        Piece::Bishop
    } else if file == 3 {
        Piece::Queen
    } else {
        Piece::King
    }
}

impl<'a> Board<'a> {
    /// The starting position, "rnbqkbnr/pppppppp/8/8/8/8/PPPPPPPP/RNBQKBNR w KQkq - 0 1".
    pub fn default(hasher: &'a ZobristHasher) -> (r: Board<'a>)
        requires
            hasher.wf(),
        ensures
            r.hasher == hasher,
            r.consistent(),
            r.hash_ok(),
            r.history@.len() == 0,
            r.pieces@ == start_pieces(),
            r.gamestate == start_state().with_hash(r.gamestate.hash.0),
    {
        let mut board = Board::empty(hasher);
        let mut file: u8 = 0;
        while file < 8
            invariant
                file <= 8,
                board.consistent(),
                board.hasher == hasher,
                board.history@.len() == 0,
                board.gamestate == GameState::initial().with_hash(board.gamestate.hash.0),
                forall|j: int| 0 <= j < 64 ==> #[trigger] board.pieces@[j] == (if (j % 8) < file && (j < 16 || j >= 48) {
                    start_pieces()[j]
                } else {
                    None
                }),
            decreases 8 - file,
        {
            let piece = back_rank(file);
            board.toggle(Color::White, piece, Square::new(0, file));
            board.toggle(Color::White, Piece::Pawn, Square::new(1, file));
            board.toggle(Color::Black, Piece::Pawn, Square::new(6, file));
            board.toggle(Color::Black, piece, Square::new(7, file));
            file = file + 1;
        }
        proof {
            assert(board.pieces@ =~= start_pieces());
        }
        board.gamestate.white_kingside = true;
        board.gamestate.white_queenside = true;
        board.gamestate.black_kingside = true;
        board.gamestate.black_queenside = true;
        board.gamestate.fullmoves = 1;

        proof {
            super::lemma_consistent_real(board);
        }
        let hash = board.board_hash();
        board.gamestate.hash = hash;
        board
    }
}

} // verus!
