//! The cache file format: header and entry decoding, the size sanity check,
//! last-wins collapsing, and the entry-level diff.

use completion_ring::cache_diff::{
    classify_index_entry, compute_diff, dedup_entries, IndexCheckOutcome,
};
use completion_ring::cache_file::{
    check_file_size, expected_file_size, parse_entries, parse_header, read_le64,
    CacheHashDataFileEntry,
};

fn entry(pubkey_byte: u8, hash_byte: u8, lamports: u64) -> CacheHashDataFileEntry {
    CacheHashDataFileEntry {
        hash: vec![hash_byte; 32],
        lamports,
        pubkey: vec![pubkey_byte; 32],
    }
}

fn encode_entry(e: &CacheHashDataFileEntry) -> Vec<u8> {
    let mut out = Vec::new();
    out.extend_from_slice(&e.hash);
    out.extend_from_slice(&e.lamports.to_le_bytes());
    out.extend_from_slice(&e.pubkey);
    out
}

#[test]
fn le64_reads_little_endian() {
    let data = vec![0x78, 0x56, 0x34, 0x12, 0, 0, 0, 0];
    assert_eq!(read_le64(&data, 0), 0x12345678);
    let data = u64::MAX.to_le_bytes().to_vec();
    assert_eq!(read_le64(&data, 0), u64::MAX);
}

#[test]
fn header_parses_count() {
    let mut data = 3u64.to_le_bytes().to_vec();
    data.push(0xaa); // trailing bytes do not disturb the header
    let header = parse_header(&data).unwrap();
    assert_eq!(header.count, 3);
    assert!(parse_header(&vec![1, 2, 3]).is_none());
}

#[test]
fn expected_size_is_header_plus_entries() {
    assert_eq!(expected_file_size(0), 8);
    assert_eq!(expected_file_size(2), 8 + 2 * 72);
    // the sanity computation saturates rather than wrapping
    assert_eq!(expected_file_size(u64::MAX), u64::MAX);
    assert!(check_file_size(152, 2));
    assert!(!check_file_size(153, 2));
    assert!(!check_file_size(151, 2));
}

#[test]
fn entries_parse_back_exactly() {
    let e1 = entry(1, 0x11, 500);
    let e2 = entry(2, 0x22, 700);
    let mut data = encode_entry(&e1);
    data.extend_from_slice(&encode_entry(&e2));
    let parsed = parse_entries(&data, 2).unwrap();
    assert_eq!(parsed.len(), 2);
    assert_eq!(parsed[0].pubkey, e1.pubkey);
    assert_eq!(parsed[0].hash, e1.hash);
    assert_eq!(parsed[0].lamports, 500);
    assert_eq!(parsed[1].pubkey, e2.pubkey);
    assert_eq!(parsed[1].lamports, 700);
    // a trailing partial entry is tolerated once the count is reached
    let mut padded = data.clone();
    padded.extend_from_slice(&[0xff; 10]);
    let tolerated = parse_entries(&padded, 2).unwrap();
    assert_eq!(tolerated.len(), 2);
    assert_eq!(tolerated[1].lamports, 700);
    // a missing or surplus whole entry is rejected, as is a wrong count
    assert!(parse_entries(&data[..100].to_vec(), 2).is_none());
    assert!(parse_entries(&data, 1).is_none());
    assert!(parse_entries(&data, 3).is_none());
}

#[test]
fn collapsing_keeps_the_last_entry_per_address() {
    let entries = vec![entry(1, 0x11, 100), entry(2, 0x22, 200), entry(1, 0x33, 300)];
    let collapsed = dedup_entries(&entries);
    assert_eq!(collapsed.len(), 2);
    let of = |pk: u8| {
        collapsed
            .iter()
            .find(|e| e.pubkey == vec![pk; 32])
            .unwrap()
    };
    assert_eq!(of(1).hash, vec![0x33; 32]);
    assert_eq!(of(1).lamports, 300);
    assert_eq!(of(2).lamports, 200);
}

#[test]
fn diff_reports_uniques_and_mismatches() {
    // file 1: addresses 1 (will mismatch), 2 (match), 3 (unique to file 1)
    let lhs = vec![entry(1, 0x11, 100), entry(2, 0x22, 200), entry(3, 0x33, 300)];
    // file 2: addresses 1 (different lamports), 2 (same), 4 (unique to file 2)
    let rhs = vec![entry(1, 0x11, 999), entry(2, 0x22, 200), entry(4, 0x44, 400)];
    let (uniques, mismatches) = compute_diff(lhs, &rhs);
    assert_eq!(uniques.len(), 1);
    assert_eq!(uniques[0].pubkey, vec![3; 32]);
    assert_eq!(mismatches.len(), 1);
    assert_eq!(mismatches[0].0.pubkey, vec![1; 32]);
    assert_eq!(mismatches[0].0.lamports, 100);
    assert_eq!(mismatches[0].1.lamports, 999);
}

#[test]
fn empty_diff_for_identical_files() {
    let lhs = vec![entry(1, 0x11, 100)];
    let rhs = vec![entry(1, 0x11, 100)];
    let (uniques, mismatches) = compute_diff(lhs, &rhs);
    assert!(uniques.is_empty());
    assert!(mismatches.is_empty());
}

#[test]
fn index_records_classify_against_the_cache() {
    let newest = entry(1, 0x11, 100);
    let older = vec![entry(1, 0x55, 50)];
    // agreeing record
    assert_eq!(
        classify_index_entry(Some(&newest), &older, &vec![0x11; 32], 100),
        IndexCheckOutcome::Match
    );
    // disagreeing record that matches an overridden older value
    assert_eq!(
        classify_index_entry(Some(&newest), &older, &vec![0x55; 32], 50),
        IndexCheckOutcome::Mismatch { matches_older: true }
    );
    // disagreeing record unknown to the older values too
    assert_eq!(
        classify_index_entry(Some(&newest), &older, &vec![0x77; 32], 1),
        IndexCheckOutcome::Mismatch { matches_older: false }
    );
    // record whose address the cache never saw
    assert_eq!(
        classify_index_entry(None, &older, &vec![0x11; 32], 100),
        IndexCheckOutcome::MissingFromCache
    );
}
