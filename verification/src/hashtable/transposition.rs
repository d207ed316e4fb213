use vstd::prelude::*;

use crate::board::zobrist::ZobristHash;
use crate::generation::mov::Move;

use super::HashEntry;

verus! {

/// How a stored evaluation bounds the true one.
#[derive(Debug, Clone, Copy, PartialEq, Eq, Structural)]
pub enum TranspositionFlag {
    Exact,
    LowerBound,
    UpperBound,
}

/// A searched position: its key, the depth searched, how the evaluation bounds the true one,
/// the evaluation and the best move found.
#[derive(Debug, Clone)]
pub struct TranspositionEntry {
    pub key: ZobristHash,
    pub depth: u8,
    pub flag: TranspositionFlag,
    pub eval: isize,
    pub best_move: Option<Move>,
}

impl TranspositionEntry {
    pub fn new(key: ZobristHash, depth: u8, flag: TranspositionFlag, eval: isize, best_move: Option<Move>) -> (r: Self)
        ensures
            r.key == key,
            r.depth == depth,
            r.flag == flag,
            r.eval == eval,
            r.best_move == best_move,
    {
        Self { key, depth, flag, eval, best_move }
    }

    pub fn key(&self) -> (r: ZobristHash)
        ensures
            r == self.key,
    {
        self.key
    }

    pub fn depth(&self) -> (r: u8)
        ensures
            r == self.depth,
    {
        self.depth
    }

    pub fn eval(&self) -> (r: isize)
        ensures
            r == self.eval,
    {
        self.eval
    }

    pub fn best_move(&self) -> (r: Option<Move>)
        ensures
            r == self.best_move,
    {
        self.best_move
    }

    pub fn flag(&self) -> (r: TranspositionFlag)
        ensures
            r == self.flag,
    {
        self.flag
    }
}

impl HashEntry<TranspositionEntry> for TranspositionEntry {
    open spec fn spec_key(&self) -> ZobristHash {
        self.key
    }

    /// A newer entry always replaces an older one.
    open spec fn spec_replaceable(&self, other: &TranspositionEntry) -> bool {
        true
    }

    fn key(&self) -> (r: ZobristHash) {
        self.key
    }

    fn replaceable(&self, other: &TranspositionEntry) -> (r: bool) {
        true
    }
}

} // verus!
