//! Comparing two directories of accounts-hash cache files: the files are
//! listed and pre-read by the unverified caller, then matched here by slot
//! range — a merge over the two listings, each sorted by slot range —
//! yielding the files unique to either side and the equal-range pairs whose
//! contents differ.

use vstd::prelude::*;

verus! {

/// What the diff needs to know about one cache file: the slot range parsed
/// from its name, the hash parsed from its name, its size, and — if it could
/// be opened — its header count and a digest of its bytes.
#[derive(Clone, Debug)]
pub struct CacheFileMeta {
    pub slot_range_start: u64,
    pub slot_range_end: u64,
    pub name_hash: Vec<u8>,
    pub file_size: u64,
    pub header_count: Option<u64>,
    pub content_digest: Option<u64>,
}

/// How two slot ranges compare, ordering by start and then by end.
#[derive(Clone, Copy, Debug, PartialEq, Eq, Structural)]
pub enum RangeOrder {
    Before,
    Equal,
    After,
}

/// The slot range of `a` relative to the slot range of `b`.
pub open spec fn spec_range_order(a: CacheFileMeta, b: CacheFileMeta) -> RangeOrder {
    if a.slot_range_start < b.slot_range_start {
        RangeOrder::Before
    } else if a.slot_range_start > b.slot_range_start {
        RangeOrder::After
    } else if a.slot_range_end < b.slot_range_end {
        RangeOrder::Before
    } else if a.slot_range_end > b.slot_range_end {
        RangeOrder::After
    } else {
        RangeOrder::Equal
    }
}

/// Whether two files cover the same slot range.
pub open spec fn same_range(a: CacheFileMeta, b: CacheFileMeta) -> bool {
    a.slot_range_start == b.slot_range_start && a.slot_range_end == b.slot_range_end
}

/// Computes [`spec_range_order`].
pub fn compare_slot_ranges(a: &CacheFileMeta, b: &CacheFileMeta) -> (r: RangeOrder)
    ensures
        r == spec_range_order(*a, *b),
        r == RangeOrder::Equal <==> same_range(*a, *b),
{
    if a.slot_range_start < b.slot_range_start {
        RangeOrder::Before
    } else if a.slot_range_start > b.slot_range_start {
        RangeOrder::After
    } else if a.slot_range_end < b.slot_range_end {
        RangeOrder::Before
    } else if a.slot_range_end > b.slot_range_end {
        RangeOrder::After
    } else {
        RangeOrder::Equal
    }
}

/// Whether two same-range files hold the same data, judged as the tool
/// judges it: equal sizes, equal name hashes, both readable, equal header
/// counts, and equal content digests. A file that could not be read never
/// matches.
pub open spec fn spec_files_match(a: CacheFileMeta, b: CacheFileMeta) -> bool {
    &&& a.file_size == b.file_size
    &&& a.name_hash@ == b.name_hash@
    &&& a.header_count is Some
    &&& b.header_count is Some
    &&& a.header_count == b.header_count
    &&& a.content_digest is Some
    &&& b.content_digest is Some
    &&& a.content_digest == b.content_digest
}

/// Computes [`spec_files_match`].
pub fn files_match(a: &CacheFileMeta, b: &CacheFileMeta) -> (r: bool)
    ensures
        r == spec_files_match(*a, *b),
{
    if a.file_size != b.file_size {
        return false;
    }
    if !crate::cache_file::bytes_eq(&a.name_hash, &b.name_hash) {
        return false;
    }
    let (ca, cb) = match (a.header_count, b.header_count) {
        (Some(ca), Some(cb)) => (ca, cb),
        _ => {
            return false;
        },
    };
    if ca != cb {
        return false;
    }
    let (da, db) = match (a.content_digest, b.content_digest) {
        (Some(da), Some(db)) => (da, db),
        _ => {
            return false;
        },
    };
    da == db
}

/// Whether a listing is strictly sorted by slot range: ranges increase, so
/// no range occurs twice. This is the deliberate domain of the directory
/// diff: a well-kept cache directory holds one file per slot range, and a
/// listing that holds two files for one range has no meaningful per-range
/// pairing — the caller reports it as malformed instead of pairing such
/// files arbitrarily.
pub open spec fn strictly_sorted(s: Seq<CacheFileMeta>) -> bool {
    forall|i: int, j: int|
        0 <= i < j < s.len() ==> #[trigger] spec_range_order(s[i], s[j]) == RangeOrder::Before
}

/// Whether index `i` of `files1` was accounted for by the diff: it is
/// either reported unique, or it has an equal-range partner in `files2`
/// with which it was compared.
pub open spec fn accounted(
    files1: Seq<CacheFileMeta>,
    files2: Seq<CacheFileMeta>,
    uniques1: Seq<usize>,
    i: int,
) -> bool {
    (exists|m: int| 0 <= m < uniques1.len() && uniques1[m] == i) || (exists|j: int|
        0 <= j < files2.len() && same_range(files1[i], #[trigger] files2[j]))
}

/// Merges two cache-file listings, each strictly sorted by slot range, into
/// the diff the tool reports: the indices of files unique to either side
/// (no equal-range partner on the other side), and the equal-range pairs
/// whose contents differ. Every file is accounted for: reported unique, or
/// compared against its equal-range partner. Listings with a repeated slot
/// range are outside this diff's domain (see [`strictly_sorted`]); the
/// caller rejects them up front.
pub fn diff_dir_listings(files1: &Vec<CacheFileMeta>, files2: &Vec<CacheFileMeta>) -> (r: (
    Vec<usize>,
    Vec<usize>,
    Vec<(usize, usize)>,
))
    requires
        strictly_sorted(files1@),
        strictly_sorted(files2@),
    ensures
        forall|m: int|
            0 <= m < r.0@.len() ==> (#[trigger] r.0@[m]) < files1@.len() && forall|j: int|
                0 <= j < files2@.len() ==> !same_range(files1@[r.0@[m] as int], #[trigger] files2@[j]),
        forall|m: int|
            0 <= m < r.1@.len() ==> (#[trigger] r.1@[m]) < files2@.len() && forall|i: int|
                0 <= i < files1@.len() ==> !same_range(files1@[i], files2@[r.1@[m] as int]),
        forall|m: int|
            0 <= m < r.2@.len() ==> (#[trigger] r.2@[m]).0 < files1@.len() && r.2@[m].1
                < files2@.len() && same_range(files1@[r.2@[m].0 as int], files2@[r.2@[m].1 as int])
                && !spec_files_match(files1@[r.2@[m].0 as int], files2@[r.2@[m].1 as int]),
        forall|i: int| 0 <= i < files1@.len() ==> accounted(files1@, files2@, r.0@, i),
        forall|j: int| 0 <= j < files2@.len() ==> accounted(files2@, files1@, r.1@, j),
{
    let mut uniques1: Vec<usize> = Vec::new();
    let mut uniques2: Vec<usize> = Vec::new();
    let mut mismatches: Vec<(usize, usize)> = Vec::new();
    let mut idx1: usize = 0;
    let mut idx2: usize = 0;
    while idx1 < files1.len() && idx2 < files2.len()
        invariant
            strictly_sorted(files1@),
            strictly_sorted(files2@),
            idx1 <= files1@.len(),
            idx2 <= files2@.len(),
            // each side's processed prefix is strictly below the other
            // side's unprocessed suffix
            forall|k: int, j: int|
                0 <= k < idx1 && idx2 <= j < files2@.len() ==> spec_range_order(
                    #[trigger] files1@[k],
                    #[trigger] files2@[j],
                ) == RangeOrder::Before,
            forall|j: int, k: int|
                0 <= j < idx2 && idx1 <= k < files1@.len() ==> spec_range_order(
                    #[trigger] files2@[j],
                    #[trigger] files1@[k],
                ) == RangeOrder::Before,
            forall|m: int|
                0 <= m < uniques1@.len() ==> (#[trigger] uniques1@[m]) < idx1 && forall|j: int|
                    0 <= j < files2@.len() ==> !same_range(
                        files1@[uniques1@[m] as int],
                        #[trigger] files2@[j],
                    ),
            forall|m: int|
                0 <= m < uniques2@.len() ==> (#[trigger] uniques2@[m]) < idx2 && forall|i: int|
                    0 <= i < files1@.len() ==> !same_range(files1@[i], files2@[uniques2@[m] as int]),
            forall|m: int|
                0 <= m < mismatches@.len() ==> (#[trigger] mismatches@[m]).0 < idx1
                    && mismatches@[m].1 < idx2 && same_range(
                    files1@[mismatches@[m].0 as int],
                    files2@[mismatches@[m].1 as int],
                ) && !spec_files_match(
                    files1@[mismatches@[m].0 as int],
                    files2@[mismatches@[m].1 as int],
                ),
            forall|i: int| 0 <= i < idx1 ==> accounted(files1@, files2@, uniques1@, i),
            forall|j: int| 0 <= j < idx2 ==> accounted(files2@, files1@, uniques2@, j),
        decreases files1@.len() + files2@.len() - idx1 - idx2,
    {
        let ghost u1 = uniques1@;
        let ghost u2 = uniques2@;
        match compare_slot_ranges(&files1[idx1], &files2[idx2]) {
            RangeOrder::Before => {
                // files1[idx1] precedes every remaining range on the other
                // side, and every processed one: it has no partner
                uniques1.push(idx1);
                proof {
                    assert forall|j: int|
                        idx2 <= j < files2@.len() implies spec_range_order(
                        files1@[idx1 as int],
                        #[trigger] files2@[j],
                    ) == RangeOrder::Before by {
                        if j > idx2 {
                            assert(spec_range_order(files2@[idx2 as int], files2@[j])
                                == RangeOrder::Before);
                        }
                    }
                    assert forall|j: int|
                        0 <= j < files2@.len() implies !same_range(
                        files1@[idx1 as int],
                        #[trigger] files2@[j],
                    ) by {
                        if j >= idx2 {
                            assert(spec_range_order(files2@[idx2 as int], files2@[j])
                                == RangeOrder::Before || idx2 == j);
                        }
                    }
                    assert forall|i: int|
                        0 <= i < idx1 + 1 implies accounted(files1@, files2@, uniques1@, i) by {
                        if i == idx1 {
                            assert(uniques1@[uniques1@.len() - 1] == i);
                        } else {
                            assert(accounted(files1@, files2@, u1, i));
                            if exists|m: int| 0 <= m < u1.len() && u1[m] == i {
                                let m = choose|m: int| 0 <= m < u1.len() && u1[m] == i;
                                assert(uniques1@[m] == i);
                            }
                        }
                    }
                }
                idx1 = idx1 + 1;
            },
            RangeOrder::After => {
                uniques2.push(idx2);
                proof {
                    assert forall|k: int|
                        idx1 <= k < files1@.len() implies spec_range_order(
                        files2@[idx2 as int],
                        #[trigger] files1@[k],
                    ) == RangeOrder::Before by {
                        if k > idx1 {
                            assert(spec_range_order(files1@[idx1 as int], files1@[k])
                                == RangeOrder::Before);
                        }
                    }
                    assert forall|i: int|
                        0 <= i < files1@.len() implies !same_range(
                        files1@[i],
                        files2@[idx2 as int],
                    ) by {
                        if i >= idx1 {
                            assert(spec_range_order(files1@[idx1 as int], files1@[i])
                                == RangeOrder::Before || idx1 == i);
                        }
                    }
                    assert forall|j: int|
                        0 <= j < idx2 + 1 implies accounted(files2@, files1@, uniques2@, j) by {
                        if j == idx2 {
                            assert(uniques2@[uniques2@.len() - 1] == j);
                        } else {
                            assert(accounted(files2@, files1@, u2, j));
                            if exists|m: int| 0 <= m < u2.len() && u2[m] == j {
                                let m = choose|m: int| 0 <= m < u2.len() && u2[m] == j;
                                assert(uniques2@[m] == j);
                            }
                        }
                    }
                }
                idx2 = idx2 + 1;
            },
            RangeOrder::Equal => {
                if !files_match(&files1[idx1], &files2[idx2]) {
                    mismatches.push((idx1, idx2));
                }
                proof {
                    assert forall|j: int|
                        idx2 + 1 <= j < files2@.len() implies spec_range_order(
                        files1@[idx1 as int],
                        #[trigger] files2@[j],
                    ) == RangeOrder::Before by {
                        assert(spec_range_order(files2@[idx2 as int], files2@[j])
                            == RangeOrder::Before);
                    }
                    assert forall|k: int|
                        idx1 + 1 <= k < files1@.len() implies spec_range_order(
                        files2@[idx2 as int],
                        #[trigger] files1@[k],
                    ) == RangeOrder::Before by {
                        assert(spec_range_order(files1@[idx1 as int], files1@[k])
                            == RangeOrder::Before);
                    }
                    assert forall|i: int|
                        0 <= i < idx1 + 1 implies accounted(files1@, files2@, uniques1@, i) by {
                        if i == idx1 {
                            assert(same_range(files1@[i], files2@[idx2 as int]));
                        } else {
                            assert(accounted(files1@, files2@, u1, i));
                        }
                    }
                    assert forall|j: int|
                        0 <= j < idx2 + 1 implies accounted(files2@, files1@, uniques2@, j) by {
                        if j == idx2 {
                            assert(same_range(files2@[j], files1@[idx1 as int]));
                        } else {
                            assert(accounted(files2@, files1@, u2, j));
                        }
                    }
                }
                idx1 = idx1 + 1;
                idx2 = idx2 + 1;
            },
        }
    }
    while idx1 < files1.len()
        invariant
            strictly_sorted(files1@),
            idx2 == files2@.len() || idx1 == files1@.len(),
            idx1 <= files1@.len(),
            idx2 <= files2@.len(),
            forall|k: int, j: int|
                0 <= k < idx1 && idx2 <= j < files2@.len() ==> spec_range_order(
                    #[trigger] files1@[k],
                    #[trigger] files2@[j],
                ) == RangeOrder::Before,
            forall|j: int, k: int|
                0 <= j < idx2 && idx1 <= k < files1@.len() ==> spec_range_order(
                    #[trigger] files2@[j],
                    #[trigger] files1@[k],
                ) == RangeOrder::Before,
            forall|m: int|
                0 <= m < uniques1@.len() ==> (#[trigger] uniques1@[m]) < idx1 && forall|j: int|
                    0 <= j < files2@.len() ==> !same_range(
                        files1@[uniques1@[m] as int],
                        #[trigger] files2@[j],
                    ),
            forall|m: int|
                0 <= m < uniques2@.len() ==> (#[trigger] uniques2@[m]) < idx2 && forall|i: int|
                    0 <= i < files1@.len() ==> !same_range(files1@[i], files2@[uniques2@[m] as int]),
            forall|m: int|
                0 <= m < mismatches@.len() ==> (#[trigger] mismatches@[m]).0 < idx1
                    && mismatches@[m].1 < idx2 && same_range(
                    files1@[mismatches@[m].0 as int],
                    files2@[mismatches@[m].1 as int],
                ) && !spec_files_match(
                    files1@[mismatches@[m].0 as int],
                    files2@[mismatches@[m].1 as int],
                ),
            forall|i: int| 0 <= i < idx1 ==> accounted(files1@, files2@, uniques1@, i),
            forall|j: int| 0 <= j < idx2 ==> accounted(files2@, files1@, uniques2@, j),
        decreases files1@.len() - idx1,
    {
        let ghost u1 = uniques1@;
        uniques1.push(idx1);
        proof {
            assert forall|j: int|
                0 <= j < files2@.len() implies !same_range(
                files1@[idx1 as int],
                #[trigger] files2@[j],
            ) by {
                assert(spec_range_order(files2@[j], files1@[idx1 as int]) == RangeOrder::Before);
            }
            assert forall|i: int|
                0 <= i < idx1 + 1 implies accounted(files1@, files2@, uniques1@, i) by {
                if i == idx1 {
                    assert(uniques1@[uniques1@.len() - 1] == i);
                } else {
                    assert(accounted(files1@, files2@, u1, i));
                    if exists|m: int| 0 <= m < u1.len() && u1[m] == i {
                        let m = choose|m: int| 0 <= m < u1.len() && u1[m] == i;
                        assert(uniques1@[m] == i);
                    }
                }
            }
        }
        idx1 = idx1 + 1;
    }
    while idx2 < files2.len()
        invariant
            strictly_sorted(files2@),
            idx1 == files1@.len(),
            idx2 <= files2@.len(),
            forall|k: int, j: int|
                0 <= k < idx1 && idx2 <= j < files2@.len() ==> spec_range_order(
                    #[trigger] files1@[k],
                    #[trigger] files2@[j],
                ) == RangeOrder::Before,
            forall|m: int|
                0 <= m < uniques1@.len() ==> (#[trigger] uniques1@[m]) < idx1 && forall|j: int|
                    0 <= j < files2@.len() ==> !same_range(
                        files1@[uniques1@[m] as int],
                        #[trigger] files2@[j],
                    ),
            forall|m: int|
                0 <= m < uniques2@.len() ==> (#[trigger] uniques2@[m]) < idx2 && forall|i: int|
                    0 <= i < files1@.len() ==> !same_range(files1@[i], files2@[uniques2@[m] as int]),
            forall|m: int|
                0 <= m < mismatches@.len() ==> (#[trigger] mismatches@[m]).0 < idx1
                    && mismatches@[m].1 < idx2 && same_range(
                    files1@[mismatches@[m].0 as int],
                    files2@[mismatches@[m].1 as int],
                ) && !spec_files_match(
                    files1@[mismatches@[m].0 as int],
                    files2@[mismatches@[m].1 as int],
                ),
            forall|i: int| 0 <= i < idx1 ==> accounted(files1@, files2@, uniques1@, i),
            forall|j: int| 0 <= j < idx2 ==> accounted(files2@, files1@, uniques2@, j),
        decreases files2@.len() - idx2,
    {
        let ghost u2 = uniques2@;
        uniques2.push(idx2);
        proof {
            assert forall|i: int|
                0 <= i < files1@.len() implies !same_range(
                files1@[i],
                files2@[idx2 as int],
            ) by {
                assert(spec_range_order(files1@[i], files2@[idx2 as int]) == RangeOrder::Before);
            }
            assert forall|j: int|
                0 <= j < idx2 + 1 implies accounted(files2@, files1@, uniques2@, j) by {
                if j == idx2 {
                    assert(uniques2@[uniques2@.len() - 1] == j);
                } else {
                    assert(accounted(files2@, files1@, u2, j));
                    if exists|m: int| 0 <= m < u2.len() && u2[m] == j {
                        let m = choose|m: int| 0 <= m < u2.len() && u2[m] == j;
                        assert(uniques2@[m] == j);
                    }
                }
            }
        }
        idx2 = idx2 + 1;
    }
    (uniques1, uniques2, mismatches)
}

} // verus!
