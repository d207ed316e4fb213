pub mod perft;
pub mod transposition;

use vstd::prelude::*;

use crate::board::zobrist::ZobristHash;

verus! {

/// An entry that can be kept in a `HashTable`: it carries its position key and decides
/// whether another entry for the same slot may replace it.
pub trait HashEntry<T> {
    spec fn spec_key(&self) -> ZobristHash;

    spec fn spec_replaceable(&self, other: &T) -> bool;

    fn key(&self) -> (r: ZobristHash)
        ensures
            r == self.spec_key(),
    ;

    fn replaceable(&self, other: &T) -> (r: bool)
        ensures
            r == self.spec_replaceable(other),
    ;
}

/// How often the table was asked and what its stores did.
#[derive(Debug)]
pub struct HashTableStats {
    pub hits: usize,
    pub misses: usize,
    pub new: usize,
    pub overwrites: usize,
}

impl Default for HashTableStats {
    fn default() -> (r: Self)
        ensures
            r.hits == 0 && r.misses == 0 && r.new == 0 && r.overwrites == 0,
    {
        HashTableStats { hits: 0, misses: 0, new: 0, overwrites: 0 }
    }
}

/// Whether `value` is a power of two.
pub open spec fn is_pow2(value: int) -> bool
    decreases value,
{
    if value <= 0 {
        false
    } else if value == 1 {
        true
    } else {
        value % 2 == 0 && is_pow2(value / 2)
    }
}

/// A power of two has exactly one bit set: clearing its lowest bit leaves nothing.
proof fn lemma_pow2_bits(value: usize)
    ensures
        is_pow2(value as int) <==> (value != 0 && value & ((value - 1) as usize) == 0),
    decreases value,
{
    if value == 0 {
    } else if value == 1 {
        assert(1usize & 0usize == 0) by (bit_vector);
    } else {
        lemma_pow2_bits(value / 2);
        assert(value > 1 ==> ((value & ((value - 1) as usize) == 0) <==> (value % 2 == 0 && (value / 2) & ((value / 2 - 1) as usize) == 0))) by (bit_vector);
    }
}

/// The slot of key `key` in a table of `size` slots: its low bits.
pub open spec fn slot_of(key: ZobristHash, size: usize) -> int {
    ((key.0 as usize) & ((size - 1) as usize)) as int
}

/// What a table with `entries` holds for `key`: the entry in the key's slot, if it carries
/// that key.
pub open spec fn lookup<T: HashEntry<T>>(entries: Seq<Option<T>>, size: usize, key: ZobristHash) -> Option<T> {
    match entries[slot_of(key, size)] {
        Some(e) => if e.spec_key() == key { Some(e) } else { None },
        None => None,
    }
}

/// The slots after storing `entry`: it takes its key's slot unless an entry there refuses to
/// be replaced by it.
pub open spec fn stored<T: HashEntry<T>>(entries: Seq<Option<T>>, size: usize, entry: T) -> Seq<Option<T>> {
    let i = slot_of(entry.spec_key(), size);
    match entries[i] {
        Some(s) => if s.spec_replaceable(&entry) { entries.update(i, Some(entry)) } else { entries },
        None => entries.update(i, Some(entry)),
    }
}

/// The slot of a key lies in the table.
proof fn lemma_slot(key: ZobristHash, size: usize)
    requires
        size > 0,
    ensures
        0 <= slot_of(key, size) < size,
{
    let k = key.0 as usize;
    assert(size > 0 ==> k & ((size - 1) as usize) <= ((size - 1) as usize)) by (bit_vector);
}

/// A table of entries indexed by the low bits of their keys, with a power-of-two number of
/// slots.
#[derive(Debug)]
pub struct HashTable<T: Clone + HashEntry<T>> {
    pub size: usize,
    pub entries: Vec<Option<T>>,
    pub stats: HashTableStats,
}

impl<T: Clone + HashEntry<T>> HashTable<T> {
    pub open spec fn wf(self) -> bool {
        &&& self.entries@.len() == self.size
        &&& is_pow2(self.size as int)
    }

    /// A table with room for `entries` entries, rounded up to a power of two (at least one),
    /// all empty.
    pub fn entries(entries: usize) -> (r: Self)
        requires
            entries <= usize::MAX / 2 + 1,
        ensures
            r.wf(),
            r.size as int >= entries,
            r.size == 1 || (r.size as int) < 2 * entries,
            forall|i: int| 0 <= i < r.size ==> r.entries@[i] is None,
            r.stats.hits == 0 && r.stats.misses == 0 && r.stats.new == 0 && r.stats.overwrites == 0,
    {
        let size = Self::to_power_2(entries);

        let mut slots: Vec<Option<T>> = Vec::new();
        let mut i: usize = 0;
        while i < size
            invariant
                i <= size,
                slots@.len() == i,
                forall|k: int| 0 <= k < i ==> slots@[k] is None,
            decreases size - i,
        {
            slots.push(None);
            i = i + 1;
        }
        Self { size, entries: slots, stats: HashTableStats::default() }
    }

    /// A table of about `size` bytes: as many entries as fit, rounded up to a power of two.
    pub fn size(size: usize) -> (r: Self)
        ensures
            r.wf(),
            forall|i: int| 0 <= i < r.size ==> r.entries@[i] is None,
            r.stats.hits == 0 && r.stats.misses == 0 && r.stats.new == 0 && r.stats.overwrites == 0,
    {
        // An `Option` always takes at least one byte.
        let width = core::mem::size_of::<Option<T>>();
        let entries = if width == 0 { size } else { size / width };
        let entries = if entries > usize::MAX / 2 + 1 { usize::MAX / 2 + 1 } else { entries };
        Self::entries(entries)
    }

    /// The entry stored for `key`, if its slot holds an entry with that key; counts a hit or a
    /// miss.
    pub fn probe(&mut self, key: ZobristHash) -> (r: Option<&T>)
        requires
            old(self).wf(),
        ensures
            final(self).wf(),
            final(self).size == old(self).size,
            final(self).entries@ == old(self).entries@,
            r is Some <==> lookup(old(self).entries@, old(self).size, key) is Some,
            r matches Some(e) ==> lookup(old(self).entries@, old(self).size, key) == Some(*e),
            r is Some ==> final(self).stats.hits == old(self).stats.hits.wrapping_add(1) && final(self).stats.misses
                == old(self).stats.misses,
            r is None ==> final(self).stats.misses == old(self).stats.misses.wrapping_add(1) && final(self).stats.hits
                == old(self).stats.hits,
            final(self).stats.new == old(self).stats.new,
            final(self).stats.overwrites == old(self).stats.overwrites,
    {
        proof {
            lemma_pow2_bits(self.size);
            lemma_slot(key, self.size);
        }
        let index = (key.0 as usize) & (self.size - 1);
        let found = match &self.entries[index] {
            Some(entry) => entry.key() == key,
            None => false,
        };
        if found {
            self.stats.hits = self.stats.hits.wrapping_add(1);
            self.entries[index].as_ref()
        } else {
            self.stats.misses = self.stats.misses.wrapping_add(1);
            None
        }
    }

    /// Stores `entry` in its key's slot, unless the entry there refuses to be replaced by it;
    /// counts a new entry or an overwrite.
    pub fn store(&mut self, entry: T)
        requires
            old(self).wf(),
        ensures
            final(self).wf(),
            final(self).size == old(self).size,
            final(self).entries@ == stored(old(self).entries@, old(self).size, entry),
            final(self).stats.hits == old(self).stats.hits,
            final(self).stats.misses == old(self).stats.misses,
            ({
                let slot = old(self).entries@[slot_of(entry.spec_key(), old(self).size)];
                &&& slot is None ==> final(self).stats.new == old(self).stats.new.wrapping_add(1)
                    && final(self).stats.overwrites == old(self).stats.overwrites
                &&& slot matches Some(s) ==> final(self).stats.new == old(self).stats.new && (if s.spec_replaceable(&entry) {
                    final(self).stats.overwrites == old(self).stats.overwrites.wrapping_add(1)
                } else {
                    final(self).stats.overwrites == old(self).stats.overwrites
                })
            }),
    {
        proof {
            lemma_pow2_bits(self.size);
            lemma_slot(entry.spec_key(), self.size);
        }
        let index = (entry.key().0 as usize) & (self.size - 1);
        if let Some(stored) = &self.entries[index] {
            if !stored.replaceable(&entry) {
                return;
            }

            self.stats.overwrites = self.stats.overwrites.wrapping_add(1);
        } else {
            self.stats.new = self.stats.new.wrapping_add(1);
        }

        self.entries.set(index, Some(entry));
    }

    /// Sets every counter back to zero.
    pub fn reset_stats(&mut self)
        ensures
            final(self).size == old(self).size,
            final(self).entries == old(self).entries,
            final(self).stats.hits == 0 && final(self).stats.misses == 0 && final(self).stats.new == 0
                && final(self).stats.overwrites == 0,
    {
        self.stats = HashTableStats::default();
    }

    /// Whether `value` is a power of two.
    fn is_power_2(value: usize) -> (r: bool)
        ensures
            r == is_pow2(value as int),
    {
        proof {
            lemma_pow2_bits(value);
        }
        if value == 0 {
            return false;
        }

        let result = value & (value - 1);
        result == 0
    }

    /// The smallest power of two that is at least `value` (one for zero).
    fn to_power_2(value: usize) -> (r: usize)
        requires
            value <= usize::MAX / 2 + 1,
        ensures
            is_pow2(r as int),
            r as int >= value,
            r == 1 || (r as int) < 2 * value,
    {
        let mut value = value;
        if !Self::is_power_2(value) {
            let ghost target = value;
            let mut power: usize = 1;
            while power < value
                invariant
                    is_pow2(power as int),
                    power >= 1,
                    power == 1 || (power as int) < 2 * value,
                    value <= usize::MAX / 2 + 1,
                decreases 2 * value - power,
            {
                proof {
                    assert(is_pow2((power * 2) as int)) by {
                        assert((power * 2) / 2 == power);
                    }
                }
                power = power * 2;
            }

            value = power;
        }

        value
    }
}

/// Looking a key up right after storing an entry with that key gives the entry back, unless
/// the slot held an entry that refused to be replaced by it; storing never changes another
/// slot.
pub proof fn lemma_lookup_after_store<T: HashEntry<T>>(entries: Seq<Option<T>>, size: usize, entry: T)
    requires
        entries.len() == size,
        size > 0,
    ensures
        (match entries[slot_of(entry.spec_key(), size)] {
            Some(s) => s.spec_replaceable(&entry),
            None => true,
        }) ==> lookup(stored(entries, size, entry), size, entry.spec_key()) == Some(entry),
        forall|i: int| 0 <= i < size && i != slot_of(entry.spec_key(), size) ==> #[trigger] stored(entries, size, entry)[i]
            == entries[i],
{
    lemma_slot(entry.spec_key(), size);
}

} // verus!
