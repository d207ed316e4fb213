use vstd::prelude::*;

use crate::board::zobrist::ZobristHash;
use crate::hashtable::is_pow2;

verus! {

/// A search result remembered for a position: its key, the depth searched and the nodes
/// counted.
#[derive(Debug, Clone, Copy)]
pub struct TranspositionEntry {
    pub key: ZobristHash,
    pub depth: u8,
    pub nodes: u64,
}

impl TranspositionEntry {
    pub fn new(key: ZobristHash, depth: u8, nodes: u64) -> (r: Self)
        ensures
            r.key == key,
            r.depth == depth,
            r.nodes == nodes,
    {
        Self { key, depth, nodes }
    }
}

/// The slot of `key` in a table of `size` slots: the key's low bits.
pub open spec fn slot(key: ZobristHash, size: usize) -> int {
    ((key.0 as usize) & ((size - 1) as usize)) as int
}

/// What a table with slots `entries` holds for `key`: the entry in the key's slot, if it
/// carries that key.
pub open spec fn entry_for(entries: Seq<Option<TranspositionEntry>>, size: usize, key: ZobristHash) -> Option<
    TranspositionEntry,
> {
    match entries[slot(key, size)] {
        Some(e) => if e.key == key {
            Some(e)
        } else {
            None
        },
        None => None,
    }
}

/// The slots after storing `entry`: it takes its key's slot unless the entry there was
/// searched deeper.
pub open spec fn after_store(entries: Seq<Option<TranspositionEntry>>, size: usize, entry: TranspositionEntry) -> Seq<
    Option<TranspositionEntry>,
> {
    let i = slot(entry.key, size);
    match entries[i] {
        Some(s) => if s.depth > entry.depth {
            entries
        } else {
            entries.update(i, Some(entry))
        },
        None => entries.update(i, Some(entry)),
    }
}

proof fn lemma_slot_in_table(key: ZobristHash, size: usize)
    requires
        size > 0,
    ensures
        0 <= slot(key, size) < size,
{
    let k = key.0 as usize;
    assert(size > 0 ==> k & ((size - 1) as usize) <= ((size - 1) as usize)) by (bit_vector);
}

proof fn lemma_pow2_mask(value: usize)
    ensures
        is_pow2(value as int) <==> (value != 0 && value & ((value - 1) as usize) == 0),
    decreases value,
{
    if value == 0 {
    } else if value == 1 {
        assert(1usize & 0usize == 0) by (bit_vector);
    } else {
        lemma_pow2_mask(value / 2);
        assert(value > 1 ==> ((value & ((value - 1) as usize) == 0) <==> (value % 2 == 0 && (value
            / 2) & ((value / 2 - 1) as usize) == 0))) by (bit_vector);
    }
}

/// Whether `value` is a power of two.
fn is_power_2(value: usize) -> (r: bool)
    ensures
        r == is_pow2(value as int),
{
    proof {
        lemma_pow2_mask(value);
    }
    if value == 0 {
        return false;
    }
    let result = value & (value - 1);
    result == 0
}

/// The smallest power of two that is at least `value` (one for zero).
fn to_power_2(value: usize) -> (r: usize)
    requires
        value <= usize::MAX / 2 + 1,
    ensures
        is_pow2(r as int),
        r as int >= value,
        r == 1 || (r as int) < 2 * value,
{
    let mut value = value;
    if !is_power_2(value) {
        let mut power: usize = 1;
        while power < value
            invariant
                is_pow2(power as int),
                power >= 1,
                power == 1 || (power as int) < 2 * value,
                value <= usize::MAX / 2 + 1,
            decreases 2 * value - power,
        {
            proof {
                assert(is_pow2((power * 2) as int)) by {
                    assert((power * 2) / 2 == power);
                }
            }
            power = power * 2;
        }
        value = power;
    }
    value
}

/// A table of search results indexed by the low bits of their keys, with a power-of-two
/// number of slots.
#[derive(Debug, Clone)]
pub struct TranspositionTable {
    pub size: usize,
    pub entries: Vec<Option<TranspositionEntry>>,
}

impl TranspositionTable {
    pub open spec fn wf(&self) -> bool {
        &&& self.entries@.len() == self.size
        &&& is_pow2(self.size as int)
    }

    /// A table of about `bytes` bytes: as many slots as fit, rounded up to a power of two,
    /// all empty.
    pub fn new(bytes: usize) -> (r: Self)
        ensures
            r.wf(),
            forall|i: int| 0 <= i < r.size ==> r.entries@[i] is None,
    {
        // An `Option` always takes at least one byte.
        let width = core::mem::size_of::<Option<TranspositionEntry>>();
        let size = if width == 0 { bytes } else { bytes / width };
        let size = if size > usize::MAX / 2 + 1 { usize::MAX / 2 + 1 } else { size };
        let size = to_power_2(size);
        let mut entries: Vec<Option<TranspositionEntry>> = Vec::new();
        let mut i: usize = 0;
        while i < size
            invariant
                i <= size,
                entries.len() == i,
                forall|k: int| 0 <= k < i ==> entries@[k] is None,
            decreases size - i,
        {
            entries.push(None);
            i = i + 1;
        }
        Self { size, entries }
    }

    /// The entry stored for `key`, if its slot holds an entry with that key.
    pub fn probe(&self, key: ZobristHash) -> (r: Option<&TranspositionEntry>)
        requires
            self.wf(),
        ensures
            r is Some <==> entry_for(self.entries@, self.size, key) is Some,
            r matches Some(e) ==> entry_for(self.entries@, self.size, key) == Some(*e),
    {
        proof {
            lemma_pow2_mask(self.size);
            lemma_slot_in_table(key, self.size);
        }
        let index = (key.0 as usize) & (self.size - 1);
        match self.entries[index].as_ref() {
            Some(entry) => if entry.key.0 == key.0 {
                Some(entry)
            } else {
                None
            },
            None => None,
        }
    }

    /// Stores `entry` in its key's slot, unless the entry there was searched deeper.
    pub fn store(&mut self, entry: TranspositionEntry)
        requires
            old(self).wf(),
        ensures
            final(self).wf(),
            final(self).size == old(self).size,
            final(self).entries@ == after_store(old(self).entries@, old(self).size, entry),
    {
        proof {
            lemma_pow2_mask(self.size);
            lemma_slot_in_table(entry.key, self.size);
        }
        let index = (entry.key.0 as usize) & (self.size - 1);
        if let Some(stored) = &self.entries[index] {
            if stored.depth > entry.depth {
                return;
            }
        }
        self.entries.set(index, Some(entry));
    }
}

/// What a store leaves: the stored entry is found under its key unless its slot kept an
/// entry searched deeper; a key of another slot finds what it found before.
pub proof fn lemma_probe_after_store(
    entries: Seq<Option<TranspositionEntry>>,
    size: usize,
    entry: TranspositionEntry,
    key: ZobristHash,
)
    requires
        entries.len() == size,
        is_pow2(size as int),
    ensures
        ({
            let i = slot(entry.key, size);
            let kept = entries[i] matches Some(s) && s.depth > entry.depth;
            &&& !kept ==> entry_for(after_store(entries, size, entry), size, entry.key) == Some(entry)
            &&& kept ==> after_store(entries, size, entry) == entries
            &&& slot(key, size) != i ==> entry_for(after_store(entries, size, entry), size, key)
                == entry_for(entries, size, key)
        }),
{
    lemma_pow2_mask(size);
    lemma_slot_in_table(entry.key, size);
    lemma_slot_in_table(key, size);
}

} // verus!
