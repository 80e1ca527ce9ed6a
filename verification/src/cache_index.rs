//! The account table an index scan is checked against: every cache entry is
//! ingested in scan order, the newest value per address wins, and the values
//! it overrode are kept aside. Each index record is then checked against the
//! newest value for its address — consuming it — and, on a mismatch, against
//! the overridden values.

use vstd::prelude::*;

verus! {

use crate::cache_diff::{
    classify_index_entry, copy_bytes, entries_map, find_pubkey, IndexCheckOutcome,
};
use crate::cache_file::CacheHashDataFileEntry;
use crate::cache_file::bytes_eq;

/// The (hash, lamports) values a sequence of entries holds, in order.
pub open spec fn values_view(s: Seq<CacheHashDataFileEntry>) -> Seq<(Seq<u8>, u64)> {
    Seq::new(s.len(), |i: int| (s[i].hash@, s[i].lamports))
}

/// The overridden values per address: whenever an entry's address was
/// already present, the value it replaces is appended to that address's
/// list.
pub open spec fn overridden_map(s: Seq<CacheHashDataFileEntry>) -> Map<Seq<u8>, Seq<(Seq<u8>, u64)>>
    decreases s.len(),
{
    if s.len() == 0 {
        Map::empty()
    } else {
        let m = overridden_map(s.drop_last());
        let pk = s.last().pubkey@;
        if entries_map(s.drop_last()).dom().contains(pk) {
            let prev = if m.dom().contains(pk) {
                m[pk]
            } else {
                Seq::empty()
            };
            m.insert(pk, prev.push(entries_map(s.drop_last())[pk]))
        } else {
            m
        }
    }
}

/// Only an address that occurs among the entries can have overridden values.
pub proof fn lemma_overridden_dom(s: Seq<CacheHashDataFileEntry>)
    ensures
        forall|pk: Seq<u8>| #[trigger]
            overridden_map(s).dom().contains(pk) ==> entries_map(s).dom().contains(pk),
    decreases s.len(),
{
    if s.len() == 0 {
    } else {
        lemma_overridden_dom(s.drop_last());
        assert forall|pk: Seq<u8>| #[trigger]
            overridden_map(s).dom().contains(pk) implies entries_map(s).dom().contains(pk) by {
            if pk != s.last().pubkey@ {
                assert(overridden_map(s.drop_last()).dom().contains(pk));
                assert(entries_map(s.drop_last()).dom().contains(pk));
            }
        }
    }
}

/// The values one address's entries overrode, oldest first.
#[derive(Debug)]
pub struct OverriddenEntries {
    pub pubkey: Vec<u8>,
    pub entries: Vec<CacheHashDataFileEntry>,
}

/// The position of the overridden-values group for address `pk`, if any.
fn find_group(groups: &Vec<OverriddenEntries>, pk: &Vec<u8>) -> (r: Option<usize>)
    ensures
        r matches Some(g) ==> g < groups@.len() && groups@[g as int].pubkey@ == pk@,
        r is None ==> forall|g: int| 0 <= g < groups@.len() ==> (#[trigger] groups@[g].pubkey@)
            != pk@,
{
    let mut i: usize = 0;
    while i < groups.len()
        invariant
            i <= groups@.len(),
            forall|g: int| 0 <= g < i ==> (#[trigger] groups@[g].pubkey@) != pk@,
        decreases groups@.len() - i,
    {
        if bytes_eq(&groups[i].pubkey, pk) {
            return Some(i);
        }
        i = i + 1;
    }
    None
}

/// The newest cache value per address together with the values each address
/// overrode, built by ingesting every cache entry in scan order; index
/// records are then checked and consume the newest value of their address.
pub struct CacheIndex {
    newest: Vec<CacheHashDataFileEntry>,
    older: Vec<OverriddenEntries>,
    log: Ghost<Seq<CacheHashDataFileEntry>>,
    checked: Ghost<Set<Seq<u8>>>,
}

impl CacheIndex {
    /// Every entry ever ingested, in order.
    pub closed spec fn log(&self) -> Seq<CacheHashDataFileEntry> {
        self.log@
    }

    /// The addresses whose newest value an index check has consumed.
    pub closed spec fn checked(&self) -> Set<Seq<u8>> {
        self.checked@
    }

    /// The newest value per address that no index check has consumed yet.
    pub open spec fn newest_model(&self) -> Map<Seq<u8>, (Seq<u8>, u64)> {
        entries_map(self.log()).remove_keys(self.checked())
    }

    /// The overridden values per address.
    pub open spec fn older_model(&self) -> Map<Seq<u8>, Seq<(Seq<u8>, u64)>> {
        overridden_map(self.log())
    }

    /// Well-formedness: the newest table carries exactly the graph of
    /// [`Self::newest_model`] with no address twice, and the groups carry
    /// exactly the graph of [`Self::older_model`] with no address twice.
    pub closed spec fn wf(&self) -> bool {
        &&& forall|k1: int, k2: int|
            0 <= k1 < k2 < self.newest@.len() ==> (#[trigger] self.newest@[k1].pubkey@) != (
            #[trigger] self.newest@[k2].pubkey@)
        &&& forall|k: int|
            0 <= k < self.newest@.len() ==> self.newest_model().dom().contains(
                (#[trigger] self.newest@[k]).pubkey@,
            ) && self.newest_model()[self.newest@[k].pubkey@] == (
            self.newest@[k].hash@,
            self.newest@[k].lamports,
            )
        &&& forall|pk: Seq<u8>| #[trigger]
            self.newest_model().dom().contains(pk) ==> exists|k: int|
                0 <= k < self.newest@.len() && (#[trigger] self.newest@[k].pubkey@) == pk
        &&& forall|g1: int, g2: int|
            0 <= g1 < g2 < self.older@.len() ==> (#[trigger] self.older@[g1].pubkey@) != (
            #[trigger] self.older@[g2].pubkey@)
        &&& forall|g: int|
            0 <= g < self.older@.len() ==> self.older_model().dom().contains(
                (#[trigger] self.older@[g]).pubkey@,
            ) && values_view(self.older@[g].entries@) == self.older_model()[self.older@[g].pubkey@]
        &&& forall|pk: Seq<u8>| #[trigger]
            self.older_model().dom().contains(pk) ==> exists|g: int|
                0 <= g < self.older@.len() && (#[trigger] self.older@[g].pubkey@) == pk
    }

    /// An empty table: nothing ingested, nothing checked.
    pub fn new() -> (r: Self)
        ensures
            r.wf(),
            r.log() == Seq::<CacheHashDataFileEntry>::empty(),
            r.checked() == Set::<Seq<u8>>::empty(),
    {
        let r = CacheIndex {
            newest: Vec::new(),
            older: Vec::new(),
            log: Ghost(Seq::empty()),
            checked: Ghost(Set::empty()),
        };
        proof {
            assert(r.newest_model() =~= Map::<Seq<u8>, (Seq<u8>, u64)>::empty());
        }
        r
    }

    /// Ingests one cache entry: it becomes the newest value of its address,
    /// and the value it replaces — if the address was present — joins that
    /// address's overridden values. Ingestion precedes any index check.
    pub fn ingest(&mut self, e: CacheHashDataFileEntry)
        requires
            old(self).wf(),
            old(self).checked() == Set::<Seq<u8>>::empty(),
        ensures
            final(self).wf(),
            final(self).log() == old(self).log().push(e),
            final(self).checked() == old(self).checked(),
    {
        let ghost log0 = self.log@;
        let ghost cur = log0.push(e);
        let ghost n0 = self.newest@;
        let ghost o0 = self.older@;
        proof {
            assert(cur.drop_last() =~= log0);
            assert(cur.last() == e);
            assert(entries_map(cur) == entries_map(log0).insert(e.pubkey@, (e.hash@, e.lamports)));
            assert(entries_map(log0).remove_keys(Set::<Seq<u8>>::empty()) =~= entries_map(log0));
            assert(entries_map(cur).remove_keys(Set::<Seq<u8>>::empty()) =~= entries_map(cur));
        }
        match find_pubkey(&self.newest, &e.pubkey) {
            Some(ix) => {
                proof {
                    assert(n0[ix as int].pubkey@ == e.pubkey@);
                    assert(old(self).newest@ == n0);
                    assert(old(self).newest_model().dom().contains(n0[ix as int].pubkey@));
                    assert(entries_map(log0).dom().contains(e.pubkey@));
                    // the push archives the previous value of this address
                    assert(overridden_map(cur) == overridden_map(log0).insert(
                        e.pubkey@,
                        (if overridden_map(log0).dom().contains(e.pubkey@) {
                            overridden_map(log0)[e.pubkey@]
                        } else {
                            Seq::empty()
                        }).push(entries_map(log0)[e.pubkey@]),
                    ));
                    assert(entries_map(log0)[e.pubkey@] == (n0[ix as int].hash@, n0[ix as int].lamports));
                }
                let mut replaced = e;
                core::mem::swap(&mut replaced, &mut self.newest[ix]);
                self.log = Ghost(cur);
                proof {
                    assert(replaced == n0[ix as int]);
                    assert(self.newest@ == n0.update(ix as int, e));
                }
                match find_group(&self.older, &replaced.pubkey) {
                    Some(g) => {
                        proof {
                            assert(o0[g as int].pubkey@ == e.pubkey@);
                            assert(overridden_map(log0).dom().contains(e.pubkey@));
                            assert(values_view(o0[g as int].entries@) == overridden_map(log0)[e.pubkey@]);
                        }
                        let grp = &mut self.older[g];
                        grp.entries.push(replaced);
                        proof {
                            assert(self.older@ == o0.update(
                                g as int,
                                OverriddenEntries {
                                    pubkey: self.older@[g as int].pubkey,
                                    entries: self.older@[g as int].entries,
                                },
                            ));
                            assert(self.older@[g as int].pubkey@ == e.pubkey@);
                            assert(self.older@[g as int].entries@ == o0[g as int].entries@.push(
                                n0[ix as int],
                            ));
                            assert(values_view(self.older@[g as int].entries@) =~= values_view(
                                o0[g as int].entries@,
                            ).push((n0[ix as int].hash@, n0[ix as int].lamports)));
                            assert(values_view(self.older@[g as int].entries@)
                                == self.older_model()[e.pubkey@]);
                            assert forall|g2: int|
                                0 <= g2 < self.older@.len() implies self.older_model().dom().contains(
                                (#[trigger] self.older@[g2]).pubkey@,
                            ) && values_view(self.older@[g2].entries@)
                                == self.older_model()[self.older@[g2].pubkey@] by {
                                if g2 != g {
                                    assert(self.older@[g2] == o0[g2]);
                                    assert(o0[g2].pubkey@ != o0[g as int].pubkey@);
                                }
                            }
                            assert forall|pk: Seq<u8>| #[trigger]
                                self.older_model().dom().contains(pk) implies exists|g2: int|
                                0 <= g2 < self.older@.len() && (#[trigger] self.older@[g2].pubkey@)
                                    == pk by {
                                if pk == e.pubkey@ {
                                    assert(self.older@[g as int].pubkey@ == pk);
                                } else {
                                    assert(overridden_map(log0).dom().contains(pk));
                                    assert(old(self).older_model().dom().contains(pk));
                                    assert(old(self).older@ == o0);
                                    let g2 = choose|g2: int|
                                        0 <= g2 < o0.len() && (#[trigger] o0[g2].pubkey@) == pk;
                                    assert(self.older@[g2].pubkey@ == pk);
                                }
                            }
                            assert forall|g1: int, g2: int|
                                0 <= g1 < g2 < self.older@.len() implies (
                            #[trigger] self.older@[g1].pubkey@) != (#[trigger] self.older@[g2].pubkey@) by {
                                assert(self.older@[g1].pubkey@ == o0[g1].pubkey@);
                                assert(self.older@[g2].pubkey@ == o0[g2].pubkey@);
                            }
                        }
                    },
                    None => {
                        proof {
                            if overridden_map(log0).dom().contains(e.pubkey@) {
                                assert(old(self).older_model().dom().contains(e.pubkey@));
                                assert(old(self).older@ == o0);
                                let g = choose|g: int|
                                    0 <= g < o0.len() && (#[trigger] o0[g].pubkey@) == e.pubkey@;
                                assert(false);
                            }
                        }
                        let mut entries: Vec<CacheHashDataFileEntry> = Vec::new();
                        let pk_copy = copy_bytes(&replaced.pubkey);
                        entries.push(replaced);
                        self.older.push(OverriddenEntries { pubkey: pk_copy, entries });
                        proof {
                            let last = self.older@.len() - 1;
                            assert(self.older@[last].pubkey@ == e.pubkey@);
                            assert(self.older@[last].entries@ == Seq::<
                                CacheHashDataFileEntry,
                            >::empty().push(n0[ix as int]));
                            assert(values_view(self.older@[last].entries@) =~= Seq::<
                                (Seq<u8>, u64),
                            >::empty().push((n0[ix as int].hash@, n0[ix as int].lamports)));
                            assert(self.older_model()[e.pubkey@] =~= Seq::<
                                (Seq<u8>, u64),
                            >::empty().push((n0[ix as int].hash@, n0[ix as int].lamports)));
                            assert forall|g2: int|
                                0 <= g2 < self.older@.len() implies self.older_model().dom().contains(
                                (#[trigger] self.older@[g2]).pubkey@,
                            ) && values_view(self.older@[g2].entries@)
                                == self.older_model()[self.older@[g2].pubkey@] by {
                                if g2 != last {
                                    assert(self.older@[g2] == o0[g2]);
                                    assert(o0[g2].pubkey@ != e.pubkey@);
                                }
                            }
                            assert forall|pk: Seq<u8>| #[trigger]
                                self.older_model().dom().contains(pk) implies exists|g2: int|
                                0 <= g2 < self.older@.len() && (#[trigger] self.older@[g2].pubkey@)
                                    == pk by {
                                if pk == e.pubkey@ {
                                    assert(self.older@[last].pubkey@ == pk);
                                } else {
                                    assert(overridden_map(log0).dom().contains(pk));
                                    assert(old(self).older_model().dom().contains(pk));
                                    assert(old(self).older@ == o0);
                                    let g2 = choose|g2: int|
                                        0 <= g2 < o0.len() && (#[trigger] o0[g2].pubkey@) == pk;
                                    assert(self.older@[g2].pubkey@ == pk);
                                }
                            }
                            assert forall|g1: int, g2: int|
                                0 <= g1 < g2 < self.older@.len() implies (
                            #[trigger] self.older@[g1].pubkey@) != (#[trigger] self.older@[g2].pubkey@) by {
                                if g2 == last {
                                    assert(self.older@[g1].pubkey@ == o0[g1].pubkey@);
                                    assert(o0[g1].pubkey@ != e.pubkey@);
                                } else {
                                    assert(self.older@[g1].pubkey@ == o0[g1].pubkey@);
                                    assert(self.older@[g2].pubkey@ == o0[g2].pubkey@);
                                }
                            }
                        }
                    },
                }
                proof {
                    assert(self.newest_model() =~= entries_map(cur));
                    assert forall|k1: int, k2: int|
                        0 <= k1 < k2 < self.newest@.len() implies (
                    #[trigger] self.newest@[k1].pubkey@) != (#[trigger] self.newest@[k2].pubkey@) by {
                        assert(self.newest@[k1].pubkey@ == n0[k1].pubkey@);
                        assert(self.newest@[k2].pubkey@ == n0[k2].pubkey@);
                    }
                    assert forall|k: int|
                        0 <= k < self.newest@.len() implies self.newest_model().dom().contains(
                        (#[trigger] self.newest@[k]).pubkey@,
                    ) && self.newest_model()[self.newest@[k].pubkey@] == (
                    self.newest@[k].hash@,
                    self.newest@[k].lamports,
                    ) by {
                        if k != ix {
                            assert(self.newest@[k] == n0[k]);
                            assert(n0[k].pubkey@ != n0[ix as int].pubkey@);
                        }
                    }
                    assert forall|pk: Seq<u8>| #[trigger]
                        self.newest_model().dom().contains(pk) implies exists|k: int|
                        0 <= k < self.newest@.len() && (#[trigger] self.newest@[k].pubkey@)
                            == pk by {
                        if pk == e.pubkey@ {
                            assert(self.newest@[ix as int].pubkey@ == pk);
                        } else {
                            assert(entries_map(log0).dom().contains(pk));
                            assert(old(self).newest_model().dom().contains(pk));
                            assert(old(self).newest@ == n0);
                            let k = choose|k: int|
                                0 <= k < n0.len() && (#[trigger] n0[k].pubkey@) == pk;
                            assert(self.newest@[k].pubkey@ == pk);
                        }
                    }
                }
            },
            None => {
                proof {
                    if entries_map(log0).dom().contains(e.pubkey@) {
                        assert(old(self).newest_model().dom().contains(e.pubkey@));
                        assert(old(self).newest@ == n0);
                        let k = choose|k: int|
                            0 <= k < n0.len() && (#[trigger] n0[k].pubkey@) == e.pubkey@;
                        assert(false);
                    }
                    assert(overridden_map(cur) == overridden_map(log0));
                }
                self.newest.push(e);
                self.log = Ghost(cur);
                proof {
                    assert(self.newest_model() =~= entries_map(cur));
                    assert forall|k: int|
                        0 <= k < self.newest@.len() implies self.newest_model().dom().contains(
                        (#[trigger] self.newest@[k]).pubkey@,
                    ) && self.newest_model()[self.newest@[k].pubkey@] == (
                    self.newest@[k].hash@,
                    self.newest@[k].lamports,
                    ) by {
                        if k < n0.len() {
                            assert(self.newest@[k] == n0[k]);
                            assert(n0[k].pubkey@ != e.pubkey@);
                        }
                    }
                    assert forall|pk: Seq<u8>| #[trigger]
                        self.newest_model().dom().contains(pk) implies exists|k: int|
                        0 <= k < self.newest@.len() && (#[trigger] self.newest@[k].pubkey@)
                            == pk by {
                        if pk == e.pubkey@ {
                            assert(self.newest@[self.newest@.len() - 1].pubkey@ == pk);
                        } else {
                            assert(entries_map(log0).dom().contains(pk));
                            assert(old(self).newest_model().dom().contains(pk));
                            assert(old(self).newest@ == n0);
                            let k = choose|k: int|
                                0 <= k < n0.len() && (#[trigger] n0[k].pubkey@) == pk;
                            assert(self.newest@[k].pubkey@ == pk);
                        }
                    }
                    assert forall|k1: int, k2: int|
                        0 <= k1 < k2 < self.newest@.len() implies (
                    #[trigger] self.newest@[k1].pubkey@) != (#[trigger] self.newest@[k2].pubkey@) by {
                        if k2 == self.newest@.len() - 1 {
                            assert(self.newest@[k1] == n0[k1]);
                            assert(n0[k1].pubkey@ != e.pubkey@);
                        } else {
                            assert(self.newest@[k1] == n0[k1]);
                            assert(self.newest@[k2] == n0[k2]);
                        }
                    }
                    assert(self.older@ == old(self).older@);
                    assert(self.older_model() == old(self).older_model());
                    assert forall|g: int|
                        0 <= g < self.older@.len() implies self.older_model().dom().contains(
                        (#[trigger] self.older@[g]).pubkey@,
                    ) && values_view(self.older@[g].entries@)
                        == self.older_model()[self.older@[g].pubkey@] by {
                        assert(old(self).older@[g] == self.older@[g]);
                    }
                    assert forall|pk: Seq<u8>| #[trigger]
                        self.older_model().dom().contains(pk) implies exists|g: int|
                        0 <= g < self.older@.len() && (#[trigger] self.older@[g].pubkey@) == pk by {
                        assert(old(self).older_model().dom().contains(pk));
                        let g = choose|g: int|
                            0 <= g < old(self).older@.len() && (#[trigger] old(
                                self,
                            ).older@[g].pubkey@) == pk;
                        assert(self.older@[g].pubkey@ == pk);
                    }
                    assert forall|g1: int, g2: int|
                        0 <= g1 < g2 < self.older@.len() implies (
                    #[trigger] self.older@[g1].pubkey@) != (#[trigger] self.older@[g2].pubkey@) by {
                        assert(self.older@[g1] == old(self).older@[g1]);
                        assert(self.older@[g2] == old(self).older@[g2]);
                    }
                }
            },
        }
    }

    /// How many addresses still hold an unconsumed newest value.
    pub closed spec fn remaining_spec(&self) -> nat {
        self.newest@.len()
    }

    /// How many addresses hold overridden values.
    pub closed spec fn overridden_addresses_spec(&self) -> nat {
        self.older@.len()
    }

    /// Computes [`Self::overridden_addresses_spec`].
    pub fn overridden_addresses(&self) -> (n: usize)
        ensures
            n == self.overridden_addresses_spec(),
    {
        self.older.len()
    }

    /// Computes [`Self::remaining_spec`].
    pub fn remaining(&self) -> (n: usize)
        ensures
            n == self.remaining_spec(),
    {
        self.newest.len()
    }

    /// Checks one index record against the table: the newest value of its
    /// address — consumed by the check — and, on a mismatch, the overridden
    /// values. An address the table does not know is missing; it then has no
    /// overridden values either (they only exist for ingested addresses).
    /// Each address is checked at most once.
    pub fn check_record(&mut self, pubkey: &Vec<u8>, hash: &Vec<u8>, lamports: u64) -> (r:
        IndexCheckOutcome)
        requires
            old(self).wf(),
            !old(self).checked().contains(pubkey@),
        ensures
            final(self).wf(),
            final(self).log() == old(self).log(),
            !old(self).newest_model().dom().contains(pubkey@) ==> r
                == IndexCheckOutcome::MissingFromCache && !old(self).older_model().dom().contains(
                pubkey@,
            ) && *final(self) == *old(self),
            old(self).newest_model().dom().contains(pubkey@) ==> final(self).checked() == old(
                self,
            ).checked().insert(pubkey@) && (old(self).newest_model()[pubkey@] == (hash@, lamports)
                ==> r == IndexCheckOutcome::Match) && (old(self).newest_model()[pubkey@] != (
            hash@,
            lamports,
            ) ==> r == (IndexCheckOutcome::Mismatch {
                matches_older: old(self).older_model().dom().contains(pubkey@) && exists|i: int|
                    0 <= i < old(self).older_model()[pubkey@].len() && (#[trigger] old(
                        self,
                    ).older_model()[pubkey@][i]) == (hash@, lamports),
            })),
    {
        let ix = match find_pubkey(&self.newest, pubkey) {
            Some(ix) => ix,
            None => {
                proof {
                    if self.newest_model().dom().contains(pubkey@) {
                        let k = choose|k: int|
                            0 <= k < self.newest@.len() && (#[trigger] self.newest@[k].pubkey@)
                                == pubkey@;
                        assert(false);
                    }
                    lemma_overridden_dom(self.log@);
                    assert(old(self).older_model() == self.older_model());
                    if self.older_model().dom().contains(pubkey@) {
                        assert(entries_map(self.log@).dom().contains(pubkey@));
                        assert(self.newest_model().dom().contains(pubkey@));
                    }
                }
                return IndexCheckOutcome::MissingFromCache;
            },
        };
        let ghost n0 = self.newest@;
        let ghost checked0 = self.checked@;
        proof {
            assert(n0[ix as int].pubkey@ == pubkey@);
            assert(self.newest_model().dom().contains(pubkey@) && self.newest_model()[pubkey@] == (
            n0[ix as int].hash@,
            n0[ix as int].lamports,
            ));
        }
        let entry = self.newest.remove(ix);
        self.checked = Ghost(self.checked@.insert(pubkey@));
        proof {
            assert(entry == n0[ix as int]);
            assert(self.newest_model() =~= entries_map(self.log@).remove_keys(checked0).remove(
                pubkey@,
            ));
            assert forall|k: int|
                0 <= k < self.newest@.len() implies self.newest_model().dom().contains(
                (#[trigger] self.newest@[k]).pubkey@,
            ) && self.newest_model()[self.newest@[k].pubkey@] == (
            self.newest@[k].hash@,
            self.newest@[k].lamports,
            ) by {
                if k < ix {
                    assert(self.newest@[k] == n0[k]);
                    assert(n0[k].pubkey@ != n0[ix as int].pubkey@);
                } else {
                    assert(self.newest@[k] == n0[k + 1]);
                    assert(n0[k + 1].pubkey@ != n0[ix as int].pubkey@);
                }
            }
            assert forall|pk: Seq<u8>| #[trigger]
                self.newest_model().dom().contains(pk) implies exists|k: int|
                0 <= k < self.newest@.len() && (#[trigger] self.newest@[k].pubkey@) == pk by {
                assert(old(self).newest_model().dom().contains(pk));
                assert(old(self).newest@ == n0);
                let k = choose|k: int| 0 <= k < n0.len() && (#[trigger] n0[k].pubkey@) == pk;
                assert(k != ix);
                if k < ix {
                    assert(self.newest@[k].pubkey@ == pk);
                } else {
                    assert(self.newest@[k - 1].pubkey@ == pk);
                }
            }
            assert forall|k1: int, k2: int|
                0 <= k1 < k2 < self.newest@.len() implies (#[trigger] self.newest@[k1].pubkey@)
                    != (#[trigger] self.newest@[k2].pubkey@) by {
                let j1: int = if k1 < ix {
                    k1
                } else {
                    k1 + 1
                };
                let j2: int = if k2 < ix {
                    k2
                } else {
                    k2 + 1
                };
                assert(self.newest@[k1] == n0[j1]);
                assert(self.newest@[k2] == n0[j2]);
            }
            assert(self.older@ == old(self).older@);
            assert(self.older_model() == old(self).older_model());
            assert forall|g: int|
                0 <= g < self.older@.len() implies self.older_model().dom().contains(
                (#[trigger] self.older@[g]).pubkey@,
            ) && values_view(self.older@[g].entries@)
                == self.older_model()[self.older@[g].pubkey@] by {
                assert(old(self).older@[g] == self.older@[g]);
            }
            assert forall|pk: Seq<u8>| #[trigger]
                self.older_model().dom().contains(pk) implies exists|g: int|
                0 <= g < self.older@.len() && (#[trigger] self.older@[g].pubkey@) == pk by {
                assert(old(self).older_model().dom().contains(pk));
                let g = choose|g: int|
                    0 <= g < old(self).older@.len() && (#[trigger] old(
                        self,
                    ).older@[g].pubkey@) == pk;
                assert(self.older@[g].pubkey@ == pk);
            }
            assert forall|g1: int, g2: int|
                0 <= g1 < g2 < self.older@.len() implies (
            #[trigger] self.older@[g1].pubkey@) != (#[trigger] self.older@[g2].pubkey@) by {
                assert(self.older@[g1] == old(self).older@[g1]);
                assert(self.older@[g2] == old(self).older@[g2]);
            }
        }
        let empty_group: Vec<CacheHashDataFileEntry> = Vec::new();
        let ghost has_group: bool = self.older_model().dom().contains(pubkey@);
        let older_values = match find_group(&self.older, pubkey) {
            Some(g) => {
                proof {
                    assert(self.older@[g as int].pubkey@ == pubkey@);
                    assert(old(self).older@ == self.older@);
                    assert(old(self).older_model().dom().contains(
                        old(self).older@[g as int].pubkey@,
                    ) && values_view(old(self).older@[g as int].entries@) == old(
                        self,
                    ).older_model()[old(self).older@[g as int].pubkey@]);
                    assert(has_group);
                    assert(values_view(self.older@[g as int].entries@)
                        == self.older_model()[pubkey@]);
                }
                &self.older[g].entries
            },
            None => {
                proof {
                    if self.older_model().dom().contains(pubkey@) {
                        assert(old(self).older@ == self.older@);
                        assert(old(self).older_model().dom().contains(pubkey@));
                        let g = choose|g: int|
                            0 <= g < self.older@.len() && (#[trigger] self.older@[g].pubkey@)
                                == pubkey@;
                        assert(false);
                    }
                }
                &empty_group
            },
        };
        let ghost ov = older_values@;
        proof {
            if has_group {
                assert(values_view(ov) == self.older_model()[pubkey@]);
            } else {
                assert(ov.len() == 0);
            }
        }
        let r = classify_index_entry(Some(&entry), older_values, hash, lamports);
        proof {
            let model_values = self.older_model()[pubkey@];
            assert((exists|j: int|
                0 <= j < ov.len() && (#[trigger] ov[j].hash@) == hash@ && ov[j].lamports
                    == lamports) == (has_group && exists|i: int|
                0 <= i < model_values.len() && (#[trigger] model_values[i]) == (
                hash@,
                lamports,
            ))) by {
                if exists|j: int|
                    0 <= j < ov.len() && (#[trigger] ov[j].hash@) == hash@ && ov[j].lamports
                        == lamports {
                    let j = choose|j: int|
                        0 <= j < ov.len() && (#[trigger] ov[j].hash@) == hash@ && ov[j].lamports
                            == lamports;
                    assert(has_group);
                    assert(model_values[j] == values_view(ov)[j]);
                    assert(model_values[j] == (hash@, lamports));
                }
                if has_group && exists|i: int|
                    0 <= i < model_values.len() && (#[trigger] model_values[i]) == (
                    hash@,
                    lamports,
                ) {
                    let i = choose|i: int|
                        0 <= i < model_values.len() && (#[trigger] model_values[i]) == (
                        hash@,
                        lamports,
                    );
                    assert(values_view(ov)[i] == (hash@, lamports));
                    assert(ov[i].hash@ == hash@ && ov[i].lamports == lamports);
                }
            }
        }
        r
    }
}

} // verus!
