use vstd::prelude::*;

use rand::rngs::StdRng;
use rand::RngCore;

use crate::bitboard::square::Square;
use crate::bits::lemma_xor_facts;

use super::color::Color;
use super::piece::Piece;
use super::{full_hash, pieces_hash, Board};

verus! {

#[verifier::external_type_specification]
#[verifier::external_body]
pub struct ExStdRng(StdRng);

/// Draws the next word from a random number generator.
///
/// Trusted: `RngCore::next_u64` of rand's `StdRng`. Nothing is stated of the word: it comes
/// from the generator's state, which Verus does not see.
#[verifier::external_body]
fn next_random(rand: &mut StdRng) -> (r: u64) {
    rand.next_u64()
}

/// A position key.
#[derive(Default, Debug, Copy, Clone, PartialEq, Eq, Hash, Structural)]
pub struct ZobristHash(pub u64);

impl ZobristHash {
    pub fn new(hash: u64) -> (r: ZobristHash)
        ensures
            r.0 == hash,
    {
        ZobristHash(hash)
    }

    pub fn hash(&self) -> (r: u64)
        ensures
            r == self.0,
    {
        self.0
    }
}

impl core::ops::BitXor for ZobristHash {
    type Output = ZobristHash;

    fn bitxor(self, rhs: ZobristHash) -> (r: ZobristHash) {
        ZobristHash(self.0 ^ rhs.0)
    }
}

impl vstd::std_specs::ops::BitXorSpecImpl for ZobristHash {
    open spec fn obeys_bitxor_spec() -> bool {
        true
    }

    open spec fn bitxor_req(self, rhs: ZobristHash) -> bool {
        true
    }

    open spec fn bitxor_spec(self, rhs: ZobristHash) -> ZobristHash {
        ZobristHash(self.0 ^ rhs.0)
    }
}

pub const PIECE_KEYS: usize = 768;

/// The random keys that make up position hashes: one per colour, piece kind and square, one
/// for Black to move, one per castling right, one per en passant file and one per search
/// depth.
#[derive(Debug, Clone)]
pub struct ZobristHasher {
    pub pieces: Vec<ZobristHash>,
    pub side: ZobristHash,
    pub castling: Vec<ZobristHash>,
    pub en_passant: Vec<ZobristHash>,
    pub depth: Vec<ZobristHash>,
}

/// Position of a colour, piece kind and square in the key table.
pub open spec fn key_index(color: Color, piece: Piece, square: int) -> int {
    (color.spec_index() * 384 + piece.spec_index() * 64) as int + square
}

impl ZobristHasher {
    pub open spec fn wf(self) -> bool {
        &&& self.pieces.len() == PIECE_KEYS
        &&& self.castling.len() == 4
        &&& self.en_passant.len() == 8
        &&& self.depth.len() == 32
    }

    /// Key of `piece` of `color` standing on square `square`.
    pub open spec fn piece_key(self, piece: Piece, color: Color, square: int) -> u64 {
        self.pieces@[key_index(color, piece, square)].0
    }

    /// Key of an en passant square on file `file`.
    pub open spec fn en_passant_key(self, file: int) -> u64 {
        self.en_passant@[file].0
    }

    /// Draws every key from `rand`, in a fixed order: pieces (by colour, kind, square), the
    /// side key, the castling keys, the en passant keys and the depth keys.
    pub fn new(rand: &mut StdRng) -> (r: ZobristHasher)
        ensures
            r.wf(),
    {
        let mut pieces: Vec<ZobristHash> = Vec::new();
        let mut n: usize = 0;
        while n < PIECE_KEYS
            invariant
                pieces.len() == n,
                n <= PIECE_KEYS,
            decreases PIECE_KEYS - n,
        {
            pieces.push(ZobristHash::new(next_random(rand)));
            n = n + 1;
        }
        let side = ZobristHash::new(next_random(rand));
        let castling = Self::draw(rand, 4);
        let en_passant = Self::draw(rand, 8);
        let depth = Self::draw(rand, 32);
        ZobristHasher { pieces, side, castling, en_passant, depth }
    }

    fn draw(rand: &mut StdRng, count: usize) -> (r: Vec<ZobristHash>)
        ensures
            r.len() == count,
    {
        let mut keys: Vec<ZobristHash> = Vec::new();
        let mut n: usize = 0;
        while n < count
            invariant
                keys.len() == n,
                n <= count,
            decreases count - n,
        {
            keys.push(ZobristHash::new(next_random(rand)));
            n = n + 1;
        }
        keys
    }

    pub fn piece_hash(&self, piece: Piece, color: Color, square: Square) -> (r: ZobristHash)
        requires
            self.wf(),
            piece.is_real(),
            square.wf(),
        ensures
            r.0 == self.piece_key(piece, color, square.index as int),
    {
        let index = color.index() * 384 + piece.index() * 64 + square.index as usize;
        self.pieces[index]
    }

    /// Key of an en passant square (only its file matters).
    pub fn en_passant_hash(&self, square: Square) -> (r: ZobristHash)
        requires
            self.wf(),
        ensures
            r.0 == self.en_passant_key(square.spec_file()),
    {
        let file_index = square.file() as usize;
        self.en_passant[file_index]
    }

    pub fn depth_hash(&self, depth: u8) -> (r: ZobristHash)
        requires
            self.wf(),
            depth < 32,
        ensures
            r == self.depth@[depth as int],
    {
        self.depth[depth as usize]
    }

    pub fn side_hash(&self) -> (r: ZobristHash)
        ensures
            r == self.side,
    {
        self.side
    }

    /// The hash of `board`'s position computed from scratch: the key of every piece on its
    /// square, then the side key when Black is to move, the keys of the castling rights held
    /// and the key of the en passant file.
    pub fn hash(&self, board: &Board) -> (r: ZobristHash)
        requires
            self.wf(),
            board.shaped(),
            board.pieces_real(),
        ensures
            r.0 == full_hash(*self, board.pieces@, board.gamestate),
    {
        let mut hash = ZobristHash(0);

        let mut square_index: u8 = 0;
        while square_index < 64
            invariant
                self.wf(),
                board.shaped(),
                square_index <= 64,
                hash.0 == pieces_hash(*self, board.pieces@, square_index as int),
                forall|j: int| 0 <= j < 64 ==> (#[trigger] board.pieces@[j] matches Some(cp) ==> cp.piece.is_real()),
            decreases 64 - square_index,
        {
            let square = Square::by_index(square_index);
            if let Some(colored_piece) = board.get_piece_type(square) {
                hash = hash ^ self.piece_hash(colored_piece.piece, colored_piece.color, square);
            } else {
                proof {
                    lemma_xor_facts(hash.0, 0, 0);
                }
            }
            square_index = square_index + 1;
        }
        let p = hash.0;
        let gs = board.gamestate;

        if board.gamestate.active == Color::Black {
            hash = hash ^ self.side_hash();
        }
        let h0 = hash.0;

        if board.gamestate.white_kingside {
            hash = hash ^ self.castling[0];
        }
        let h1 = hash.0;
        if board.gamestate.white_queenside {
            hash = hash ^ self.castling[1];
        }
        let h2 = hash.0;
        if board.gamestate.black_kingside {
            hash = hash ^ self.castling[2];
        }
        let h3 = hash.0;
        if board.gamestate.black_queenside {
            hash = hash ^ self.castling[3];
        }
        let h4 = hash.0;

        if let Some(en_passant) = board.gamestate.en_passant {
            hash = hash ^ self.en_passant_hash(en_passant.to_capture);
        }

        proof {
            let t0 = if gs.active == Color::Black { self.side.0 } else { 0u64 };
            let t1 = if gs.white_kingside { self.castling@[0].0 } else { 0u64 };
            let t2 = if gs.white_queenside { self.castling@[1].0 } else { 0u64 };
            let t3 = if gs.black_kingside { self.castling@[2].0 } else { 0u64 };
            let t4 = if gs.black_queenside { self.castling@[3].0 } else { 0u64 };
            let t5 = super::ep_hash(*self, gs);
            lemma_xor_facts(p, 0, 0);
            lemma_xor_facts(h0, 0, 0);
            lemma_xor_facts(h1, 0, 0);
            lemma_xor_facts(h2, 0, 0);
            lemma_xor_facts(h3, 0, 0);
            lemma_xor_facts(h4, 0, 0);
            assert(h0 == p ^ t0);
            assert(h1 == h0 ^ t1);
            assert(h2 == h1 ^ t2);
            assert(h3 == h2 ^ t3);
            assert(h4 == h3 ^ t4);
            assert(hash.0 == h4 ^ t5);
            assert((((((p ^ t0) ^ t1) ^ t2) ^ t3) ^ t4) ^ t5 == p ^ (((((t0 ^ t1) ^ t2) ^ t3) ^ t4) ^ t5)) by (bit_vector);
        }
        hash
    }
}

impl<'a> Board<'a> {
    /// The hash of this position computed from scratch with the board's hasher.
    pub fn board_hash(&self) -> (r: ZobristHash)
        requires
            self.shaped(),
            self.pieces_real(),
        ensures
            r.0 == full_hash(*self.hasher, self.pieces@, self.gamestate),
            r == self.gamestate.hash <==> self.hash_ok(),
    {
        self.hasher.hash(self)
    }
}

} // verus!
