//! Comparing accounts-hash cache data: collapsing a file's entries to one
//! per address (the last wins), and diffing two files' collapsed entries
//! into per-address uniques and mismatches. Also the per-entry check an
//! index scan runs against the collapsed cache.

use vstd::prelude::*;

verus! {

use crate::cache_file::CacheHashDataFileEntry;
use crate::cache_file::bytes_eq;

/// The address-to-(hash, lamports) map a sequence of entries stands for,
/// with a later entry overriding an earlier one of the same address.
pub open spec fn entries_map(s: Seq<CacheHashDataFileEntry>) -> Map<Seq<u8>, (Seq<u8>, u64)>
    decreases s.len(),
{
    if s.len() == 0 {
        Map::empty()
    } else {
        entries_map(s.drop_last()).insert(s.last().pubkey@, (s.last().hash@, s.last().lamports))
    }
}

/// Whether no two entries share an address.
pub open spec fn unique_pubkeys(s: Seq<CacheHashDataFileEntry>) -> bool {
    forall|i: int, j: int| 0 <= i < j < s.len() ==> (#[trigger] s[i].pubkey@) != (#[trigger] s[j].pubkey@)
}

/// An address is in the map exactly when some entry carries it.
pub proof fn lemma_entries_map_dom(s: Seq<CacheHashDataFileEntry>)
    ensures
        forall|pk: Seq<u8>| #[trigger]
            entries_map(s).dom().contains(pk) <==> exists|j: int|
                0 <= j < s.len() && (#[trigger] s[j].pubkey@) == pk,
    decreases s.len(),
{
    if s.len() == 0 {
    } else {
        lemma_entries_map_dom(s.drop_last());
        assert forall|pk: Seq<u8>| #[trigger]
            entries_map(s).dom().contains(pk) implies exists|j: int|
            0 <= j < s.len() && (#[trigger] s[j].pubkey@) == pk by {
            if pk == s.last().pubkey@ {
                assert(s[s.len() - 1].pubkey@ == pk);
            } else {
                assert(entries_map(s.drop_last()).dom().contains(pk));
                let j = choose|j: int|
                    0 <= j < s.drop_last().len() && (#[trigger] s.drop_last()[j].pubkey@) == pk;
                assert(s.drop_last()[j] == s[j]);
                assert(s[j].pubkey@ == pk);
            }
        }
        assert forall|pk: Seq<u8>|
            exists|j: int|
                0 <= j < s.len() && (#[trigger] s[j].pubkey@) == pk implies #[trigger] entries_map(
            s,
        ).dom().contains(pk) by {
            let j = choose|j: int| 0 <= j < s.len() && (#[trigger] s[j].pubkey@) == pk;
            if j == s.len() - 1 {
                assert(pk == s.last().pubkey@);
            } else {
                assert(s.drop_last()[j] == s[j]);
                assert(s.drop_last()[j].pubkey@ == pk);
                assert(entries_map(s.drop_last()).dom().contains(pk));
            }
        }
    }
}

/// With unique addresses, each entry is the map's value at its address.
pub proof fn lemma_entries_map_value(s: Seq<CacheHashDataFileEntry>, j: int)
    requires
        unique_pubkeys(s),
        0 <= j < s.len(),
    ensures
        entries_map(s).dom().contains(s[j].pubkey@),
        entries_map(s)[s[j].pubkey@] == (s[j].hash@, s[j].lamports),
    decreases s.len(),
{
    if j == s.len() - 1 {
    } else {
        assert(s[j].pubkey@ != s[s.len() - 1].pubkey@);
        assert(s.drop_last()[j] == s[j]);
        lemma_entries_map_value(s.drop_last(), j);
    }
}

/// Byte-for-byte copy.
pub(crate) fn copy_bytes(s: &Vec<u8>) -> (r: Vec<u8>)
    ensures
        r@ == s@,
{
    let mut r: Vec<u8> = Vec::new();
    let mut i: usize = 0;
    while i < s.len()
        invariant
            i <= s@.len(),
            r@ == s@.subrange(0, i as int),
        decreases s@.len() - i,
    {
        r.push(s[i]);
        proof {
            assert(r@ =~= s@.subrange(0, i + 1));
        }
        i = i + 1;
    }
    proof {
        assert(r@ =~= s@);
    }
    r
}

/// A copy of an entry, equal to it field by field.
fn copy_entry(e: &CacheHashDataFileEntry) -> (r: CacheHashDataFileEntry)
    ensures
        r.hash@ == e.hash@,
        r.lamports == e.lamports,
        r.pubkey@ == e.pubkey@,
{
    CacheHashDataFileEntry {
        hash: copy_bytes(&e.hash),
        lamports: e.lamports,
        pubkey: copy_bytes(&e.pubkey),
    }
}

/// The position of the entry carrying address `pk`, if any.
pub(crate) fn find_pubkey(entries: &Vec<CacheHashDataFileEntry>, pk: &Vec<u8>) -> (r: Option<usize>)
    ensures
        r matches Some(ix) ==> ix < entries@.len() && entries@[ix as int].pubkey@ == pk@,
        r is None ==> forall|j: int| 0 <= j < entries@.len() ==> (#[trigger] entries@[j].pubkey@)
            != pk@,
{
    let mut i: usize = 0;
    while i < entries.len()
        invariant
            i <= entries@.len(),
            forall|j: int| 0 <= j < i ==> (#[trigger] entries@[j].pubkey@) != pk@,
        decreases entries@.len() - i,
    {
        if bytes_eq(&entries[i].pubkey, pk) {
            return Some(i);
        }
        i = i + 1;
    }
    None
}

/// Collapses entries to one per address, a later entry overriding an
/// earlier one of the same address: the result carries exactly the graph of
/// [`entries_map`], with no address twice.
pub fn dedup_entries(entries: &Vec<CacheHashDataFileEntry>) -> (r: Vec<CacheHashDataFileEntry>)
    ensures
        unique_pubkeys(r@),
        forall|k: int|
            0 <= k < r@.len() ==> entries_map(entries@).dom().contains(
                (#[trigger] r@[k]).pubkey@,
            ) && entries_map(entries@)[r@[k].pubkey@] == (r@[k].hash@, r@[k].lamports),
        forall|pk: Seq<u8>| #[trigger]
            entries_map(entries@).dom().contains(pk) ==> exists|k: int|
                0 <= k < r@.len() && (#[trigger] r@[k].pubkey@) == pk,
{
    let mut r: Vec<CacheHashDataFileEntry> = Vec::new();
    let mut i: usize = 0;
    while i < entries.len()
        invariant
            i <= entries@.len(),
            unique_pubkeys(r@),
            forall|k: int|
                0 <= k < r@.len() ==> entries_map(entries@.subrange(0, i as int)).dom().contains(
                    (#[trigger] r@[k]).pubkey@,
                ) && entries_map(entries@.subrange(0, i as int))[r@[k].pubkey@] == (
                r@[k].hash@,
                r@[k].lamports,
                ),
            forall|pk: Seq<u8>| #[trigger]
                entries_map(entries@.subrange(0, i as int)).dom().contains(pk) ==> exists|k: int|
                    0 <= k < r@.len() && (#[trigger] r@[k].pubkey@) == pk,
        decreases entries@.len() - i,
    {
        let ghost prev = entries@.subrange(0, i as int);
        let ghost cur = entries@.subrange(0, i + 1);
        proof {
            assert(cur.drop_last() =~= prev);
            assert(cur.last() == entries@[i as int]);
            assert(entries_map(cur) == entries_map(prev).insert(
                entries@[i as int].pubkey@,
                (entries@[i as int].hash@, entries@[i as int].lamports),
            ));
        }
        let e = copy_entry(&entries[i]);
        let ghost r0 = r@;
        match find_pubkey(&r, &e.pubkey) {
            Some(ix) => {
                r[ix] = e;
                proof {
                    assert forall|k: int|
                        0 <= k < r@.len() implies entries_map(cur).dom().contains(
                        (#[trigger] r@[k]).pubkey@,
                    ) && entries_map(cur)[r@[k].pubkey@] == (r@[k].hash@, r@[k].lamports) by {
                        if k == ix {
                        } else {
                            assert(r0[k].pubkey@ != r0[ix as int].pubkey@);
                            assert(r@[k] == r0[k]);
                        }
                    }
                    assert forall|pk: Seq<u8>| #[trigger]
                        entries_map(cur).dom().contains(pk) implies exists|k: int|
                        0 <= k < r@.len() && (#[trigger] r@[k].pubkey@) == pk by {
                        if pk == entries@[i as int].pubkey@ {
                            assert(r@[ix as int].pubkey@ == pk);
                        } else {
                            let k = choose|k: int|
                                0 <= k < r0.len() && (#[trigger] r0[k].pubkey@) == pk;
                            assert(r@[k].pubkey@ == pk);
                        }
                    }
                }
            },
            None => {
                r.push(e);
                proof {
                    assert forall|pk: Seq<u8>| #[trigger]
                        entries_map(cur).dom().contains(pk) implies exists|k: int|
                        0 <= k < r@.len() && (#[trigger] r@[k].pubkey@) == pk by {
                        if pk == entries@[i as int].pubkey@ {
                            assert(r@[r@.len() - 1].pubkey@ == pk);
                        } else {
                            let k = choose|k: int|
                                0 <= k < r0.len() && (#[trigger] r0[k].pubkey@) == pk;
                            assert(r@[k].pubkey@ == pk);
                        }
                    }
                }
            },
        }
        i = i + 1;
    }
    proof {
        assert(entries@.subrange(0, entries@.len() as int) =~= entries@);
    }
    r
}

/// Holds of an entry whose address the other file does not know at all.
pub open spec fn missing_from(
    rhs: Seq<CacheHashDataFileEntry>,
) -> spec_fn(CacheHashDataFileEntry) -> bool {
    |e: CacheHashDataFileEntry| !entries_map(rhs).dom().contains(e.pubkey@)
}

/// Holds of an entry whose address the other file knows with a different
/// hash or balance.
pub open spec fn mismatched_in(
    rhs: Seq<CacheHashDataFileEntry>,
) -> spec_fn(CacheHashDataFileEntry) -> bool {
    |e: CacheHashDataFileEntry|
        entries_map(rhs).dom().contains(e.pubkey@) && entries_map(rhs)[e.pubkey@] != (
        e.hash@,
        e.lamports,
        )
}

/// Diffs one collapsed file against another: returns the entries of `lhs`
/// whose address `rhs` does not know, and — paired with the differing `rhs`
/// entry — those whose address `rhs` knows with another hash or balance.
/// Entries come out in `lhs` order.
pub fn compute_diff(
    lhs: Vec<CacheHashDataFileEntry>,
    rhs: &Vec<CacheHashDataFileEntry>,
) -> (r: (Vec<CacheHashDataFileEntry>, Vec<(CacheHashDataFileEntry, CacheHashDataFileEntry)>))
    requires
        unique_pubkeys(rhs@),
    ensures
        r.0@ == lhs@.filter(missing_from(rhs@)),
        r.1@.map_values(
            |p: (CacheHashDataFileEntry, CacheHashDataFileEntry)| p.0,
        ) == lhs@.filter(mismatched_in(rhs@)),
        forall|k: int|
            0 <= k < r.1@.len() ==> ((#[trigger] r.1@[k]).1.pubkey@ == r.1@[k].0.pubkey@ && (
            r.1@[k].1.hash@,
            r.1@[k].1.lamports,
            ) == entries_map(rhs@)[r.1@[k].0.pubkey@]),
{
    let ghost orig = lhs@;
    let mut lhs = lhs;
    let mut uniques: Vec<CacheHashDataFileEntry> = Vec::new();
    let mut mismatches: Vec<(CacheHashDataFileEntry, CacheHashDataFileEntry)> = Vec::new();
    proof {
        reveal(Seq::filter);
        assert(orig.subrange(0, orig.len() as int) =~= orig);
        assert(orig.subrange(0, 0).filter(missing_from(rhs@)) =~= Seq::empty());
        assert(orig.subrange(0, 0).filter(mismatched_in(rhs@)) =~= Seq::empty());
    }
    while lhs.len() > 0
        invariant
            unique_pubkeys(rhs@),
            lhs@.len() <= orig.len(),
            lhs@ == orig.subrange(orig.len() - lhs@.len(), orig.len() as int),
            uniques@ == orig.subrange(0, orig.len() - lhs@.len()).filter(missing_from(rhs@)),
            mismatches@.map_values(
                |p: (CacheHashDataFileEntry, CacheHashDataFileEntry)| p.0,
            ) == orig.subrange(0, orig.len() - lhs@.len()).filter(mismatched_in(rhs@)),
            forall|k: int|
                0 <= k < mismatches@.len() ==> ((#[trigger] mismatches@[k]).1.pubkey@
                    == mismatches@[k].0.pubkey@ && (
                mismatches@[k].1.hash@,
                mismatches@[k].1.lamports,
                ) == entries_map(rhs@)[mismatches@[k].0.pubkey@]),
        decreases lhs@.len(),
    {
        let ghost i = orig.len() - lhs@.len();
        let ghost prev = orig.subrange(0, i as int);
        let ghost cur = orig.subrange(0, i + 1);
        let e = lhs.remove(0);
        proof {
            reveal(Seq::filter);
            assert(e == orig[i as int]);
            assert(lhs@ =~= orig.subrange(orig.len() - lhs@.len(), orig.len() as int));
            assert(cur.drop_last() =~= prev);
            assert(cur.last() == orig[i as int]);
        }
        let found = find_pubkey(rhs, &e.pubkey);
        proof {
            lemma_entries_map_dom(rhs@);
        }
        match found {
            Some(ix) => {
                proof {
                    lemma_entries_map_value(rhs@, ix as int);
                }
                let differs = !bytes_eq(&rhs[ix].hash, &e.hash) || rhs[ix].lamports != e.lamports;
                if differs {
                    proof {
                        reveal(Seq::filter);
                        assert(mismatched_in(rhs@)(e));
                        assert(!missing_from(rhs@)(e));
                        assert(cur.filter(missing_from(rhs@)) == prev.filter(missing_from(rhs@)));
                        assert(cur.filter(mismatched_in(rhs@)) == prev.filter(
                            mismatched_in(rhs@),
                        ).push(e));
                    }
                    let ghost mm0 = mismatches@;
                    let other = copy_entry(&rhs[ix]);
                    mismatches.push((e, other));
                    proof {
                        assert(mismatches@.map_values(
                            |p: (CacheHashDataFileEntry, CacheHashDataFileEntry)| p.0,
                        ) =~= mm0.map_values(
                            |p: (CacheHashDataFileEntry, CacheHashDataFileEntry)| p.0,
                        ).push(e));
                    }
                } else {
                    proof {
                        reveal(Seq::filter);
                        assert(!mismatched_in(rhs@)(e));
                        assert(!missing_from(rhs@)(e));
                        assert(cur.filter(missing_from(rhs@)) == prev.filter(missing_from(rhs@)));
                        assert(cur.filter(mismatched_in(rhs@)) == prev.filter(mismatched_in(rhs@)));
                    }
                }
            },
            None => {
                proof {
                    reveal(Seq::filter);
                    assert(missing_from(rhs@)(e));
                    assert(!mismatched_in(rhs@)(e));
                    assert(cur.filter(missing_from(rhs@)) == prev.filter(missing_from(rhs@)).push(
                        e,
                    ));
                    assert(cur.filter(mismatched_in(rhs@)) == prev.filter(mismatched_in(rhs@)));
                }
                uniques.push(e);
            },
        }
    }
    proof {
        assert(orig.subrange(0, orig.len() as int) =~= orig);
    }
    (uniques, mismatches)
}

/// What an index scan finds when it checks one index record against the
/// collapsed cache.
#[derive(Clone, Copy, Debug, PartialEq, Eq, Structural)]
pub enum IndexCheckOutcome {
    /// The cache's newest value for the address agrees with the record.
    Match,
    /// The cache knows the address with a different hash or balance; the
    /// flag says whether some older, overridden cache value agreed instead.
    Mismatch { matches_older: bool },
    /// The cache does not know the address at all.
    MissingFromCache,
}

/// Checks one index record — its hash and balance — against the cache's
/// newest value for the address, if any, and the older overridden values.
pub fn classify_index_entry(
    newest: Option<&CacheHashDataFileEntry>,
    older: &Vec<CacheHashDataFileEntry>,
    index_hash: &Vec<u8>,
    index_lamports: u64,
) -> (r: IndexCheckOutcome)
    ensures
        newest is None ==> r == IndexCheckOutcome::MissingFromCache,
        newest matches Some(e) ==> (e.hash@ == index_hash@ && e.lamports == index_lamports ==> r
            == IndexCheckOutcome::Match),
        newest matches Some(e) ==> (!(e.hash@ == index_hash@ && e.lamports == index_lamports) ==> r
            == (IndexCheckOutcome::Mismatch {
            matches_older: exists|j: int|
                0 <= j < older@.len() && (#[trigger] older@[j].hash@) == index_hash@
                    && older@[j].lamports == index_lamports,
        })),
{
    let e = match newest {
        Some(e) => e,
        None => {
            return IndexCheckOutcome::MissingFromCache;
        },
    };
    if bytes_eq(&e.hash, index_hash) && e.lamports == index_lamports {
        return IndexCheckOutcome::Match;
    }
    let mut j: usize = 0;
    let mut matches_older = false;
    while j < older.len()
        invariant
            j <= older@.len(),
            matches_older == exists|k: int|
                0 <= k < j && (#[trigger] older@[k].hash@) == index_hash@ && older@[k].lamports
                    == index_lamports,
        decreases older@.len() - j,
    {
        if bytes_eq(&older[j].hash, index_hash) && older[j].lamports == index_lamports {
            matches_older = true;
        }
        j = j + 1;
    }
    IndexCheckOutcome::Mismatch { matches_older }
}

} // verus!
