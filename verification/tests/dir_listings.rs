//! Matching two cache directories' file listings by slot range.

use completion_ring::dir_diff::{
    compare_slot_ranges, diff_dir_listings, files_match, CacheFileMeta, RangeOrder,
};

fn meta(start: u64, end: u64, digest: u64) -> CacheFileMeta {
    CacheFileMeta {
        slot_range_start: start,
        slot_range_end: end,
        name_hash: vec![7; 32],
        file_size: 80,
        header_count: Some(1),
        content_digest: Some(digest),
    }
}

#[test]
fn ranges_order_by_start_then_end() {
    assert_eq!(compare_slot_ranges(&meta(1, 5, 0), &meta(2, 3, 0)), RangeOrder::Before);
    assert_eq!(compare_slot_ranges(&meta(2, 3, 0), &meta(1, 5, 0)), RangeOrder::After);
    assert_eq!(compare_slot_ranges(&meta(1, 3, 0), &meta(1, 5, 0)), RangeOrder::Before);
    assert_eq!(compare_slot_ranges(&meta(1, 5, 0), &meta(1, 5, 9)), RangeOrder::Equal);
}

#[test]
fn files_match_judges_as_the_tool_does() {
    let a = meta(1, 5, 42);
    assert!(files_match(&a, &meta(1, 5, 42)));
    // a different size, digest, or count breaks the match
    let mut b = meta(1, 5, 42);
    b.file_size = 81;
    assert!(!files_match(&a, &b));
    assert!(!files_match(&a, &meta(1, 5, 43)));
    let mut c = meta(1, 5, 42);
    c.header_count = Some(2);
    assert!(!files_match(&a, &c));
    // an unreadable file never matches
    let mut d = meta(1, 5, 42);
    d.content_digest = None;
    assert!(!files_match(&a, &d));
    let mut e = meta(1, 5, 42);
    e.header_count = None;
    assert!(!files_match(&a, &e));
}

#[test]
fn listings_merge_into_uniques_and_mismatches() {
    // directory 1: ranges (0,9) unique, (10,19) matching, (20,29) mismatching
    let files1 = vec![meta(0, 9, 1), meta(10, 19, 2), meta(20, 29, 3)];
    // directory 2: (10,19) matching, (20,29) differing digest, (30,39) unique
    let files2 = vec![meta(10, 19, 2), meta(20, 29, 99), meta(30, 39, 4)];
    let (uniques1, uniques2, mismatches) = diff_dir_listings(&files1, &files2);
    assert_eq!(uniques1, vec![0]);
    assert_eq!(uniques2, vec![2]);
    assert_eq!(mismatches, vec![(2, 1)]);
}

#[test]
fn disjoint_listings_are_all_unique() {
    let files1 = vec![meta(0, 9, 1), meta(20, 29, 2)];
    let files2 = vec![meta(10, 19, 3), meta(30, 39, 4)];
    let (uniques1, uniques2, mismatches) = diff_dir_listings(&files1, &files2);
    assert_eq!(uniques1, vec![0, 1]);
    assert_eq!(uniques2, vec![0, 1]);
    assert!(mismatches.is_empty());
}
