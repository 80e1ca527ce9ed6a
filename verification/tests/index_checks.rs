//! Building the index-check table from cache entries and checking index
//! records against it.

use completion_ring::cache_diff::IndexCheckOutcome;
use completion_ring::cache_file::CacheHashDataFileEntry;
use completion_ring::cache_index::CacheIndex;

fn entry(pubkey_byte: u8, hash_byte: u8, lamports: u64) -> CacheHashDataFileEntry {
    CacheHashDataFileEntry {
        hash: vec![hash_byte; 32],
        lamports,
        pubkey: vec![pubkey_byte; 32],
    }
}

fn table() -> CacheIndex {
    let mut t = CacheIndex::new();
    // address 1 is written twice: the later value wins, the earlier is kept
    // as an overridden value
    t.ingest(entry(1, 0x11, 100));
    t.ingest(entry(2, 0x22, 200));
    t.ingest(entry(1, 0x33, 300));
    t
}

#[test]
fn newest_value_wins_per_address() {
    let mut t = table();
    assert_eq!(t.remaining(), 2);
    // the record agreeing with the newest value matches
    assert_eq!(
        t.check_record(&vec![1; 32], &vec![0x33; 32], 300),
        IndexCheckOutcome::Match
    );
    // the check consumed the address
    assert_eq!(t.remaining(), 1);
}

#[test]
fn overridden_values_explain_a_mismatch() {
    let mut t = table();
    // the record carries the overridden value of address 1
    assert_eq!(
        t.check_record(&vec![1; 32], &vec![0x11; 32], 100),
        IndexCheckOutcome::Mismatch { matches_older: true }
    );
    // a record with a value the cache never held for address 2
    assert_eq!(
        t.check_record(&vec![2; 32], &vec![0x44; 32], 999),
        IndexCheckOutcome::Mismatch { matches_older: false }
    );
}

#[test]
fn unknown_addresses_are_missing() {
    let mut t = table();
    assert_eq!(
        t.check_record(&vec![9; 32], &vec![0x11; 32], 100),
        IndexCheckOutcome::MissingFromCache
    );
    // nothing was consumed by a miss
    assert_eq!(t.remaining(), 2);
}
