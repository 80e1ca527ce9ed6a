//! The accounts-hash cache file format and the computations the inspection
//! and diff tools run over it.
//!
//! A cache file is a little-endian header holding an entry count, followed by
//! that many fixed-size entries: a 32-byte account hash, a lamport balance,
//! and a 32-byte account address. Entries are sorted by address then slot, so
//! when one address occurs more than once the last entry is the one that
//! counts. All file reading is the unverified caller's job; everything here
//! works on the bytes and entries it is handed.

use vstd::prelude::*;

verus! {

/// Bytes in the serialized header.
pub const HEADER_SIZE: u64 = 8;

/// Bytes in one serialized entry.
pub const ENTRY_SIZE: u64 = 72;

/// The cache file header: how many entries the file claims to hold.
#[derive(Clone, Copy, Debug, PartialEq, Eq, Structural)]
pub struct CacheHashDataFileHeader {
    pub count: u64,
}

/// One cache file entry: an account's hash, balance and address.
#[derive(Debug)]
pub struct CacheHashDataFileEntry {
    pub hash: Vec<u8>,
    pub lamports: u64,
    pub pubkey: Vec<u8>,
}

/// The value a little-endian 8-byte sequence encodes.
pub open spec fn le64(s: Seq<u8>) -> nat
    recommends
        s.len() == 8,
{
    (s[0] as nat) + 256 * ((s[1] as nat) + 256 * ((s[2] as nat) + 256 * ((s[3] as nat) + 256 * ((
    s[4] as nat) + 256 * ((s[5] as nat) + 256 * ((s[6] as nat) + 256 * (s[7] as nat)))))))
}

/// Reads the little-endian 64-bit value at `offset`.
pub fn read_le64(data: &Vec<u8>, offset: usize) -> (v: u64)
    requires
        offset + 8 <= data.len(),
    ensures
        v == le64(data@.subrange(offset as int, offset + 8)),
{
    let ghost s = data@.subrange(offset as int, offset + 8);
    let mut v: u64 = data[offset + 7] as u64;
    v = v * 256 + (data[offset + 6] as u64);
    v = v * 256 + (data[offset + 5] as u64);
    v = v * 256 + (data[offset + 4] as u64);
    v = v * 256 + (data[offset + 3] as u64);
    v = v * 256 + (data[offset + 2] as u64);
    v = v * 256 + (data[offset + 1] as u64);
    v = v * 256 + (data[offset] as u64);
    proof {
        assert(s[0] == data@[offset as int]);
        assert(s[1] == data@[offset + 1]);
        assert(s[2] == data@[offset + 2]);
        assert(s[3] == data@[offset + 3]);
        assert(s[4] == data@[offset + 4]);
        assert(s[5] == data@[offset + 5]);
        assert(s[6] == data@[offset + 6]);
        assert(s[7] == data@[offset + 7]);
    }
    v
}

/// Copies `n` bytes starting at `start`.
fn copy_range(data: &Vec<u8>, start: usize, n: usize) -> (r: Vec<u8>)
    requires
        start + n <= data.len(),
    ensures
        r@ == data@.subrange(start as int, start + n),
{
    let mut r: Vec<u8> = Vec::new();
    let mut i: usize = 0;
    while i < n
        invariant
            i <= n,
            start + n <= data.len(),
            r@ == data@.subrange(start as int, start + i),
        decreases n - i,
    {
        r.push(data[start + i]);
        proof {
            assert(r@ =~= data@.subrange(start as int, start + i + 1));
        }
        i = i + 1;
    }
    r
}

/// Whether two byte strings are equal.
pub fn bytes_eq(a: &Vec<u8>, b: &Vec<u8>) -> (r: bool)
    ensures
        r == (a@ == b@),
{
    if a.len() != b.len() {
        return false;
    }
    let mut i: usize = 0;
    while i < a.len()
        invariant
            a@.len() == b@.len(),
            i <= a@.len(),
            forall|j: int| 0 <= j < i ==> a@[j] == b@[j],
        decreases a@.len() - i,
    {
        if a[i] != b[i] {
            return false;
        }
        i = i + 1;
    }
    proof {
        assert(a@ =~= b@);
    }
    true
}

/// Parses the header at the front of a cache file: the file must at least
/// hold a whole header.
pub fn parse_header(data: &Vec<u8>) -> (r: Option<CacheHashDataFileHeader>)
    ensures
        data@.len() < HEADER_SIZE ==> r is None,
        data@.len() >= HEADER_SIZE ==> r == Some(
            CacheHashDataFileHeader { count: le64(data@.subrange(0, HEADER_SIZE as int)) as u64 },
        ),
{
    if data.len() < 8 {
        return None;
    }
    let count = read_le64(data, 0);
    Some(CacheHashDataFileHeader { count })
}

/// The file size the header's count calls for: a header plus `count`
/// entries, saturating at the largest representable size as the original
/// sanity check does.
pub open spec fn spec_expected_file_size(count: nat) -> nat {
    if ENTRY_SIZE * count > u64::MAX {
        u64::MAX as nat
    } else if HEADER_SIZE + ENTRY_SIZE * count > u64::MAX {
        u64::MAX as nat
    } else {
        (HEADER_SIZE + ENTRY_SIZE * count) as nat
    }
}

/// Computes [`spec_expected_file_size`].
pub fn expected_file_size(count: u64) -> (r: u64)
    ensures
        r == spec_expected_file_size(count as nat),
{
    let entries = match count.checked_mul(72) {
        Some(n) => n,
        None => {
            return u64::MAX;
        },
    };
    match entries.checked_add(8) {
        Some(n) => n,
        None => u64::MAX,
    }
}

/// The sanity check on an opened cache file: its actual size must be exactly
/// what the header's count calls for.
pub fn check_file_size(actual_file_size: u64, count: u64) -> (r: bool)
    ensures
        r == (actual_file_size == spec_expected_file_size(count as nat)),
{
    actual_file_size == expected_file_size(count)
}

/// Decodes the entry serialized at `offset`.
pub fn parse_entry(data: &Vec<u8>, offset: usize) -> (r: CacheHashDataFileEntry)
    requires
        offset + 72 <= data.len(),
    ensures
        r.hash@ == data@.subrange(offset as int, offset + 32),
        r.lamports == le64(data@.subrange(offset + 32, offset + 40)),
        r.pubkey@ == data@.subrange(offset + 40, offset + 72),
{
    let hash = copy_range(data, offset, 32);
    let lamports = read_le64(data, offset + 32);
    let pubkey = copy_range(data, offset + 40, 32);
    CacheHashDataFileEntry { hash, lamports, pubkey }
}

/// Decodes the entries of a cache file, `data` being everything after the
/// header. Succeeds exactly when the data yields `expected_count` whole
/// entries before it ends: a trailing partial entry is tolerated — a scan
/// stops at it having already seen the expected count — but a missing or a
/// surplus whole entry is an error.
pub fn parse_entries(data: &Vec<u8>, expected_count: u64) -> (r: Option<
    Vec<CacheHashDataFileEntry>,
>)
    ensures
        r is Some <==> ENTRY_SIZE * expected_count <= data@.len() < ENTRY_SIZE * (expected_count
            + 1),
        r matches Some(v) ==> v@.len() == expected_count && forall|i: int|
            0 <= i < v@.len() ==> (#[trigger] v@[i]).hash@ == data@.subrange(
                72 * i,
                72 * i + 32,
            ) && v@[i].lamports == le64(data@.subrange(72 * i + 32, 72 * i + 40)) && v@[i].pubkey@
                == data@.subrange(72 * i + 40, 72 * i + 72),
{
    let len = data.len();
    let count = len / 72;
    proof {
        assert(len as int == 72 * (len as int / 72) + (len as int) % 72);
        assert(0 <= (len as int) % 72 < 72);
    }
    if count as u64 != expected_count {
        return None;
    }
    let mut entries: Vec<CacheHashDataFileEntry> = Vec::new();
    let mut i: usize = 0;
    while i < count
        invariant
            i <= count,
            count * 72 <= data.len(),
            entries@.len() == i,
            forall|j: int|
                0 <= j < i ==> (#[trigger] entries@[j]).hash@ == data@.subrange(
                    72 * j,
                    72 * j + 32,
                ) && entries@[j].lamports == le64(data@.subrange(72 * j + 32, 72 * j + 40))
                    && entries@[j].pubkey@ == data@.subrange(72 * j + 40, 72 * j + 72),
        decreases count - i,
    {
        proof {
            assert(72 * (i as int + 1) <= 72 * (count as int)) by (nonlinear_arith)
                requires
                    i < count,
            ;
        }
        let e = parse_entry(data, i * 72);
        entries.push(e);
        i = i + 1;
    }
    Some(entries)
}

} // verus!
