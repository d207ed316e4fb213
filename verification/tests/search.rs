use ace::board::zobrist::ZobristHash;
use ace::hashtable::perft::PerftEntry;
use ace::hashtable::HashTable;
use ace::search::transposition::{TranspositionEntry, TranspositionTable};

#[test]
fn transposition_store_and_probe() {
    let mut table = TranspositionTable::new(1000);
    assert!(table.size.is_power_of_two());
    let size = table.size as u64;
    let key = ZobristHash(5);
    assert!(table.probe(key).is_none());

    table.store(TranspositionEntry::new(key, 3, 100));
    assert_eq!(table.probe(key).unwrap().nodes, 100);

    // A shallower result in the same slot does not replace a deeper one.
    let clash = ZobristHash(5 + size);
    table.store(TranspositionEntry::new(clash, 2, 7));
    assert!(table.probe(clash).is_none());
    assert_eq!(table.probe(key).unwrap().nodes, 100);

    // An equally deep one does.
    table.store(TranspositionEntry::new(clash, 3, 9));
    assert_eq!(table.probe(clash).unwrap().nodes, 9);
    assert!(table.probe(key).is_none());
}

#[test]
fn transposition_tiny_table() {
    let table = TranspositionTable::new(0);
    assert_eq!(table.size, 1);
    assert_eq!(table.entries.len(), 1);
}

#[test]
fn hashtable_store_and_probe() {
    let mut table: HashTable<PerftEntry> = HashTable::entries(100);
    assert_eq!(table.size, 128);
    let key = ZobristHash(77);
    assert!(table.probe(key).is_none());
    table.store(PerftEntry::new(key, 2, 400));
    assert_eq!(table.probe(key).unwrap().nodes(), 400);
    assert_eq!(table.stats.hits, 1);
    assert_eq!(table.stats.misses, 1);
    assert_eq!(table.stats.new, 1);
}
