use vstd::prelude::*;

use crate::board::zobrist::ZobristHash;
use crate::perft::PerftStats;

use super::HashEntry;

verus! {

/// The number of leaf nodes below a position at a depth.
#[derive(Debug, Clone)]
pub struct PerftEntry {
    pub key: ZobristHash,
    pub depth: u8,
    pub nodes: u64,
}

impl PerftEntry {
    pub fn new(key: ZobristHash, depth: u8, nodes: u64) -> (r: Self)
        ensures
            r.key == key,
            r.depth == depth,
            r.nodes == nodes,
    {
        Self { key, depth, nodes }
    }

    pub fn nodes(&self) -> (r: u64)
        ensures
            r == self.nodes,
    {
        self.nodes
    }
}

impl HashEntry<PerftEntry> for PerftEntry {
    open spec fn spec_key(&self) -> ZobristHash {
        self.key
    }

    /// An entry gives way to one counted at a greater depth.
    open spec fn spec_replaceable(&self, other: &PerftEntry) -> bool {
        self.depth < other.depth
    }

    fn key(&self) -> (r: ZobristHash) {
        self.key
    }

    fn replaceable(&self, other: &PerftEntry) -> (r: bool) {
        self.depth < other.depth
    }
}

/// The move statistics below a position at a depth.
#[derive(Debug, Clone)]
pub struct PerftStatsEntry {
    pub key: ZobristHash,
    pub depth: u8,
    pub stats: PerftStats,
}

impl PerftStatsEntry {
    pub fn new(key: ZobristHash, depth: u8, stats: PerftStats) -> (r: Self)
        ensures
            r.key == key,
            r.depth == depth,
            r.stats == stats,
    {
        Self { key, depth, stats }
    }

    pub fn stats(&self) -> (r: &PerftStats)
        ensures
            *r == self.stats,
    {
        &self.stats
    }
}

impl HashEntry<PerftStatsEntry> for PerftStatsEntry {
    open spec fn spec_key(&self) -> ZobristHash {
        self.key
    }

    /// An entry gives way to one counted at a greater depth.
    open spec fn spec_replaceable(&self, other: &PerftStatsEntry) -> bool {
        self.depth < other.depth
    }

    fn key(&self) -> (r: ZobristHash) {
        self.key
    }

    fn replaceable(&self, other: &PerftStatsEntry) -> (r: bool) {
        self.depth < other.depth
    }
}

} // verus!
