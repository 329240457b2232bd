//! The record aggregator: one record collection per active source plus the
//! locally-injected records, merged into a single published snapshot on
//! every change. A source's earlier contribution is replaced wholesale by
//! its next snapshot, removed when cleared, and dropped when pruned.

use vstd::prelude::*;
use crate::dns::{DataV, Record, RecordSet, RecordV, has_key, rec_key, set_keys};
use crate::sources::{SourceId, SourceRecords};

verus! {

/// No two entries claim the same source.
pub open spec fn unique_ids(s: Seq<(SourceId, RecordSet)>) -> bool {
    forall|i: int, j: int| 0 <= i < j < s.len() ==> (#[trigger] s[i]).0 != (#[trigger] s[j]).0
}

/// Index of the entry owned by `id`, where one exists.
pub open spec fn idx_of(s: Seq<(SourceId, RecordSet)>, id: SourceId) -> int {
    choose|i: int| 0 <= i < s.len() && (#[trigger] s[i]).0 == id
}

/// The per-source contributions as a map from source to its latest snapshot.
pub open spec fn source_map_of(s: Seq<(SourceId, RecordSet)>) -> Map<SourceId, Seq<RecordV>> {
    Map::new(
        |id: SourceId| exists|i: int| 0 <= i < s.len() && (#[trigger] s[i]).0 == id,
        |id: SourceId| s[idx_of(s, id)].1@,
    )
}

proof fn lemma_map_at(s: Seq<(SourceId, RecordSet)>, i: int)
    requires
        unique_ids(s),
        0 <= i < s.len(),
    ensures
        source_map_of(s).contains_key(s[i].0),
        source_map_of(s)[s[i].0] == s[i].1@,
{
    let id = s[i].0;
    assert(exists|j: int| 0 <= j < s.len() && (#[trigger] s[j]).0 == id);
    let j = idx_of(s, id);
    assert(0 <= j < s.len() && s[j].0 == id);
    if i < j {
        assert(s[i].0 != s[j].0);
    }
    if j < i {
        assert(s[j].0 != s[i].0);
    }
    assert(j == i);
}

/// The identities present in the union of every kept source's latest
/// snapshot and the locally-injected records.
pub open spec fn merged_keys(m: Map<SourceId, Seq<RecordV>>, local: Seq<RecordV>) -> Set<
    (Seq<u8>, DataV),
> {
    Set::new(
        |k: (Seq<u8>, DataV)|
            (exists|id: SourceId| #[trigger] m.contains_key(id) && has_key(m[id], k)) || has_key(
                local,
                k,
            ),
    )
}

/// `r` is owed to some kept source's latest snapshot or to the local set.
pub open spec fn contributed(
    m: Map<SourceId, Seq<RecordV>>,
    local: Seq<RecordV>,
    r: RecordV,
) -> bool {
    (exists|id: SourceId| #[trigger] m.contains_key(id) && m[id].contains(r)) || local.contains(r)
}

/// `r` occurs in one of the first `n` source entries' sets.
spec fn from_prefix(s: Seq<(SourceId, RecordSet)>, n: int, r: RecordV) -> bool {
    exists|ii: int, jj: int|
        0 <= ii < n && 0 <= jj < s[ii].1@.len() && #[trigger] s[ii].1@[jj] == r
}

proof fn lemma_from_prefix_widen(s: Seq<(SourceId, RecordSet)>, n1: int, n2: int, r: RecordV)
    requires
        from_prefix(s, n1, r),
        n1 <= n2,
    ensures
        from_prefix(s, n2, r),
{
    let (ii, jj) = choose|ii: int, jj: int|
        0 <= ii < n1 && 0 <= jj < s[ii].1@.len() && #[trigger] s[ii].1@[jj] == r;
    assert(s[ii].1@[jj] == r);
}

/// The identities present in the first `n` source entries.
spec fn prefix_keys(s: Seq<(SourceId, RecordSet)>, n: int) -> Set<(Seq<u8>, DataV)>
    decreases n,
{
    if n <= 0 {
        Set::empty()
    } else {
        prefix_keys(s, n - 1).union(set_keys(s[n - 1].1@))
    }
}

proof fn lemma_prefix_keys_iff(s: Seq<(SourceId, RecordSet)>, n: int, k: (Seq<u8>, DataV))
    requires
        0 <= n <= s.len(),
    ensures
        prefix_keys(s, n).contains(k) <==> exists|i: int|
            0 <= i < n && has_key((#[trigger] s[i]).1@, k),
    decreases n,
{
    if n > 0 {
        lemma_prefix_keys_iff(s, n - 1, k);
    }
}

/// `e` reproduces, unchanged, one of the first `n` entries whose source is
/// kept.
spec fn kept_entry_ok(
    old_s: Seq<(SourceId, RecordSet)>,
    keep: Seq<SourceId>,
    n: int,
    e: (SourceId, RecordSet),
) -> bool {
    exists|j: int|
        0 <= j < n && e.0 == (#[trigger] old_s[j]).0 && e.1@ == old_s[j].1@ && keep.contains(
            old_s[j].0,
        )
}

/// Some entry of `kept` is owned by `id`.
spec fn id_kept(kept: Seq<(SourceId, RecordSet)>, id: SourceId) -> bool {
    exists|t: int| 0 <= t < kept.len() && (#[trigger] kept[t]).0 == id
}

/// The aggregator. Holds the latest full snapshot of every known source and
/// the locally-injected records; every mutating call leaves it ready to
/// publish the merged union.
pub struct RecordServer {
    sources: Vec<(SourceId, RecordSet)>,
    local: RecordSet,
}

impl RecordServer {
    /// Internal consistency: unique source identities, well-formed sets.
    pub closed spec fn wf(&self) -> bool {
        &&& unique_ids(self.sources@)
        &&& forall|i: int| 0 <= i < self.sources@.len() ==> (#[trigger] self.sources@[i]).1.wf()
        &&& self.local.wf()
    }

    /// The latest snapshot of each currently-kept source.
    pub closed spec fn source_map(&self) -> Map<SourceId, Seq<RecordV>> {
        source_map_of(self.sources@)
    }

    /// The locally-injected records.
    pub closed spec fn local_view(&self) -> Seq<RecordV> {
        self.local@
    }

    /// A fresh aggregator: no sources, no local records.
    pub fn new() -> (r: RecordServer)
        ensures
            r.wf(),
            r.source_map() == Map::<SourceId, Seq<RecordV>>::empty(),
            r.local_view() == Seq::<RecordV>::empty(),
    {
        let r = RecordServer { sources: Vec::new(), local: RecordSet::new() };
        proof {
            assert(r.source_map() =~= Map::<SourceId, Seq<RecordV>>::empty());
        }
        r
    }

    fn find_source(&self, id: &SourceId) -> (r: Option<usize>)
        ensures
            match r {
                Some(i) => i < self.sources@.len() && self.sources@[i as int].0 == *id,
                None => forall|i: int|
                    0 <= i < self.sources@.len() ==> (#[trigger] self.sources@[i]).0 != *id,
            },
    {
        let mut i: usize = 0;
        while i < self.sources.len()
            invariant
                0 <= i <= self.sources@.len(),
                forall|j: int| 0 <= j < i ==> (#[trigger] self.sources@[j]).0 != *id,
            decreases self.sources@.len() - i,
        {
            if self.sources[i].0 == *id {
                return Some(i);
            }
            i += 1;
        }
        None
    }

    /// Replaces, in full, the contribution previously attributed to the
    /// snapshot's source; repeating the same call changes nothing further.
    pub fn add_source_records(&mut self, new_records: SourceRecords)
        requires
            old(self).wf(),
            new_records.records.wf(),
        ensures
            final(self).wf(),
            final(self).source_map() == old(self).source_map().insert(
                new_records.source_id,
                new_records.records@,
            ),
            final(self).source_map() == apply_op(
                old(self).source_map(),
                AggregatorOp::Add(new_records.source_id, new_records.records@),
            ),
            final(self).local_view() == old(self).local_view(),
    {
        let ghost old_s = self.sources@;
        let id = new_records.source_id;
        match self.find_source(&id) {
            Some(i) => {
                self.sources.set(i, (id, new_records.records));
                proof {
                    let s = self.sources@;
                    assert forall|x: SourceId|
                        source_map_of(s).contains_key(x) == source_map_of(old_s).insert(
                            id,
                            new_records.records@,
                        ).contains_key(x) by {
                        if x == id {
                            assert(s[i as int].0 == id);
                        } else {
                            assert forall|j: int| 0 <= j < s.len() && (#[trigger] s[j]).0 == x
                                implies 0 <= j < old_s.len() && old_s[j].0 == x by {
                                assert(j != i);
                            }
                            assert forall|j: int|
                                0 <= j < old_s.len() && (#[trigger] old_s[j]).0 == x
                                implies 0 <= j < s.len() && s[j].0 == x by {
                                assert(j != i);
                            }
                        }
                    }
                    assert forall|x: SourceId| #[trigger]
                        source_map_of(s).contains_key(x) implies source_map_of(s)[x]
                        == source_map_of(old_s).insert(id, new_records.records@)[x] by {
                        let j = choose|j: int| 0 <= j < s.len() && (#[trigger] s[j]).0 == x;
                        lemma_map_at(s, j);
                        if x == id {
                            assert(j == i) by {
                                if j != i {
                                    assert(s[i as int].0 == id);
                                }
                            }
                        } else {
                            assert(j != i);
                            lemma_map_at(old_s, j);
                        }
                    }
                    assert(self.source_map() =~= old(self).source_map().insert(
                        id,
                        new_records.records@,
                    ));
                }
            },
            None => {
                self.sources.push((id, new_records.records));
                proof {
                    let s = self.sources@;
                    assert(s =~= old_s.push((id, new_records.records)));
                    assert forall|x: SourceId|
                        source_map_of(s).contains_key(x) == source_map_of(old_s).insert(
                            id,
                            new_records.records@,
                        ).contains_key(x) by {
                        if x == id {
                            assert(s[s.len() - 1].0 == id);
                        } else {
                            assert forall|j: int| 0 <= j < s.len() && (#[trigger] s[j]).0 == x
                                implies 0 <= j < old_s.len() && old_s[j].0 == x by {
                                assert(j != s.len() - 1);
                            }
                            assert forall|j: int|
                                0 <= j < old_s.len() && (#[trigger] old_s[j]).0 == x
                                implies 0 <= j < s.len() && s[j].0 == x by {
                                assert(s[j] == old_s[j]);
                            }
                        }
                    }
                    assert forall|x: SourceId| #[trigger]
                        source_map_of(s).contains_key(x) implies source_map_of(s)[x]
                        == source_map_of(old_s).insert(id, new_records.records@)[x] by {
                        let j = choose|j: int| 0 <= j < s.len() && (#[trigger] s[j]).0 == x;
                        lemma_map_at(s, j);
                        if x == id {
                            assert(j == s.len() - 1) by {
                                if j != s.len() - 1 {
                                    assert(old_s[j].0 == x);
                                    assert(s[s.len() - 1].0 == id);
                                }
                            }
                        } else {
                            assert(j != s.len() - 1);
                            lemma_map_at(old_s, j);
                        }
                    }
                    assert(self.source_map() =~= old(self).source_map().insert(
                        id,
                        new_records.records@,
                    ));
                }
            },
        }
    }

    /// Removes a source's entire contribution and forgets the source, as if
    /// it had sent an empty snapshot and been dropped.
    pub fn clear_source_records(&mut self, source_id: &SourceId)
        requires
            old(self).wf(),
        ensures
            final(self).wf(),
            final(self).source_map() == old(self).source_map().remove(*source_id),
            final(self).source_map() == apply_op(
                old(self).source_map(),
                AggregatorOp::Clear(*source_id),
            ),
            final(self).local_view() == old(self).local_view(),
    {
        let ghost old_s = self.sources@;
        match self.find_source(source_id) {
            Some(i) => {
                self.sources.remove(i);
                proof {
                    let s = self.sources@;
                    assert forall|x: SourceId|
                        source_map_of(s).contains_key(x) == source_map_of(old_s).remove(
                            *source_id,
                        ).contains_key(x) by {
                        assert forall|j: int| 0 <= j < s.len() && (#[trigger] s[j]).0 == x
                            implies source_map_of(old_s).remove(*source_id).contains_key(x) by {
                            if j < i {
                                assert(old_s[j].0 == x);
                                assert(x != *source_id);
                            } else {
                                assert(old_s[j + 1].0 == x);
                                assert(x != *source_id);
                            }
                        }
                        if x != *source_id {
                            assert forall|j: int|
                                0 <= j < old_s.len() && (#[trigger] old_s[j]).0 == x
                                implies source_map_of(s).contains_key(x) by {
                                if j < i {
                                    assert(s[j].0 == x);
                                } else {
                                    assert(j != i);
                                    assert(s[j - 1].0 == x);
                                }
                            }
                        }
                    }
                    assert forall|x: SourceId| #[trigger]
                        source_map_of(s).contains_key(x) implies source_map_of(s)[x]
                        == source_map_of(old_s).remove(*source_id)[x] by {
                        let j = choose|j: int| 0 <= j < s.len() && (#[trigger] s[j]).0 == x;
                        lemma_map_at(s, j);
                        if j < i {
                            lemma_map_at(old_s, j);
                        } else {
                            lemma_map_at(old_s, j + 1);
                        }
                    }
                    assert(self.source_map() =~= old(self).source_map().remove(*source_id));
                }
            },
            None => {
                proof {
                    assert forall|x: SourceId|
                        source_map_of(old_s).contains_key(x) == source_map_of(old_s).remove(
                            *source_id,
                        ).contains_key(x) by {
                        if x == *source_id {
                            if source_map_of(old_s).contains_key(x) {
                                let j = choose|j: int|
                                    0 <= j < old_s.len() && (#[trigger] old_s[j]).0 == x;
                                assert(false);
                            }
                        }
                    }
                    assert(self.source_map() =~= old(self).source_map().remove(*source_id));
                }
            },
        }
    }

    /// Keeps only the sources named in `keep`; every other source's
    /// contribution disappears. Locally-injected records are never pruned.
    pub fn prune_sources(&mut self, keep: &Vec<SourceId>)
        requires
            old(self).wf(),
        ensures
            final(self).wf(),
            final(self).source_map() == old(self).source_map().restrict(
                Set::new(|id: SourceId| keep@.contains(id)),
            ),
            final(self).source_map() == apply_op(
                old(self).source_map(),
                AggregatorOp::Prune(Set::new(|id: SourceId| keep@.contains(id))),
            ),
            final(self).local_view() == old(self).local_view(),
    {
        let ghost old_s = self.sources@;
        let ghost keep_set = Set::new(|id: SourceId| keep@.contains(id));
        let mut kept: Vec<(SourceId, RecordSet)> = Vec::new();
        let mut i: usize = 0;
        while i < self.sources.len()
            invariant
                old(self).wf(),
                self.sources@ == old_s,
                0 <= i <= old_s.len(),
                unique_ids(kept@),
                forall|t: int| 0 <= t < kept@.len() ==> (#[trigger] kept@[t]).1.wf(),
                forall|t: int|
                    0 <= t < kept@.len() ==> kept_entry_ok(
                        old_s,
                        keep@,
                        i as int,
                        #[trigger] kept@[t],
                    ),
                forall|j: int|
                    0 <= j < i && keep@.contains((#[trigger] old_s[j]).0) ==> id_kept(
                        kept@,
                        old_s[j].0,
                    ),
            decreases old_s.len() - i,
        {
            let entry = &self.sources[i];
            let id = entry.0;
            let ghost kept_old = kept@;
            if contains_id(keep, &id) {
                kept.push((id, entry.1.clone()));
                proof {
                    assert(kept@ =~= kept_old.push((id, self.sources@[i as int].1)).update(
                        kept_old.len() as int,
                        kept@[kept_old.len() as int],
                    ));
                    assert(kept@[kept_old.len() as int].0 == id);
                    assert(kept@[kept_old.len() as int].1@ == old_s[i as int].1@);
                    assert forall|t: int, u: int| 0 <= t < u < kept@.len() implies (
                    #[trigger] kept@[t]).0 != (#[trigger] kept@[u]).0 by {
                        if u == kept@.len() - 1 {
                            let j = choose|j: int|
                                0 <= j < i && kept_old[t].0 == (#[trigger] old_s[j]).0
                                    && kept_old[t].1@ == old_s[j].1@ && keep@.contains(
                                    old_s[j].0,
                                );
                            assert(old_s[j].0 != old_s[i as int].0);
                        }
                    }
                    assert forall|t: int| 0 <= t < kept@.len() implies kept_entry_ok(
                        old_s,
                        keep@,
                        i as int + 1,
                        #[trigger] kept@[t],
                    ) by {
                        if t < kept_old.len() {
                            let j = choose|j: int|
                                0 <= j < i && kept_old[t].0 == (#[trigger] old_s[j]).0
                                    && kept_old[t].1@ == old_s[j].1@ && keep@.contains(
                                    old_s[j].0,
                                );
                            assert(kept@[t].0 == (old_s[j]).0 && kept@[t].1@ == old_s[j].1@
                                && keep@.contains(old_s[j].0));
                        } else {
                            assert(kept@[t].0 == (old_s[i as int]).0 && kept@[t].1@
                                == old_s[i as int].1@ && keep@.contains(old_s[i as int].0));
                        }
                    }
                    assert forall|j: int|
                        0 <= j < i + 1 && keep@.contains((#[trigger] old_s[j]).0) implies id_kept(
                        kept@,
                        old_s[j].0,
                    ) by {
                        if j < i {
                            let t = choose|t: int|
                                0 <= t < kept_old.len() && (#[trigger] kept_old[t]).0
                                    == old_s[j].0;
                            assert((kept@[t]).0 == old_s[j].0);
                        } else {
                            assert((kept@[kept@.len() - 1]).0 == old_s[j].0);
                        }
                    }
                }
            } else {
                proof {
                    assert forall|t: int| 0 <= t < kept@.len() implies kept_entry_ok(
                        old_s,
                        keep@,
                        i as int + 1,
                        #[trigger] kept@[t],
                    ) by {
                        let j = choose|j: int|
                            0 <= j < i && kept_old[t].0 == (#[trigger] old_s[j]).0 && kept_old[t].1@
                                == old_s[j].1@ && keep@.contains(old_s[j].0);
                        assert(kept@[t].0 == (old_s[j]).0 && kept@[t].1@ == old_s[j].1@
                            && keep@.contains(old_s[j].0));
                    }
                }
            }
            i += 1;
        }
        self.sources = kept;
        proof {
            let s = self.sources@;
            assert forall|x: SourceId|
                source_map_of(s).contains_key(x) == source_map_of(old_s).restrict(
                    keep_set,
                ).contains_key(x) by {
                if source_map_of(s).contains_key(x) {
                    let t = choose|t: int| 0 <= t < s.len() && (#[trigger] s[t]).0 == x;
                    assert(kept_entry_ok(old_s, keep@, old_s.len() as int, s[t]));
                    let j = choose|j: int|
                        0 <= j < old_s.len() && s[t].0 == (#[trigger] old_s[j]).0 && s[t].1@
                            == old_s[j].1@ && keep@.contains(old_s[j].0);
                    assert(old_s[j].0 == x);
                    assert(keep_set.contains(x));
                }
                if source_map_of(old_s).restrict(keep_set).contains_key(x) {
                    let j = choose|j: int| 0 <= j < old_s.len() && (#[trigger] old_s[j]).0 == x;
                    assert(keep@.contains(old_s[j].0));
                    assert(id_kept(s, old_s[j].0));
                    let t = choose|t: int| 0 <= t < s.len() && (#[trigger] s[t]).0 == x;
                    assert(source_map_of(s).contains_key(x));
                }
            }
            assert forall|x: SourceId| #[trigger] source_map_of(s).contains_key(x) implies
                source_map_of(s)[x] == source_map_of(old_s).restrict(keep_set)[x] by {
                let t = choose|t: int| 0 <= t < s.len() && (#[trigger] s[t]).0 == x;
                lemma_map_at(s, t);
                assert(kept_entry_ok(old_s, keep@, old_s.len() as int, s[t]));
                let j = choose|j: int|
                    0 <= j < old_s.len() && s[t].0 == (#[trigger] old_s[j]).0 && s[t].1@
                        == old_s[j].1@ && keep@.contains(old_s[j].0);
                lemma_map_at(old_s, j);
            }
            assert(self.source_map() =~= old(self).source_map().restrict(keep_set));
        }
    }


    /// Replaces the locally-injected records; they join every merge but are
    /// never pruned.
    pub fn set_local_records(&mut self, records: RecordSet)
        requires
            old(self).wf(),
            records.wf(),
        ensures
            final(self).wf(),
            final(self).source_map() == old(self).source_map(),
            final(self).local_view() == records@,
    {
        self.local = records;
    }

    /// The locally-injected records, copied out for the diagnostic reader.
    pub fn local_records(&self) -> (out: RecordSet)
        requires
            self.wf(),
        ensures
            out@ == self.local_view(),
            out.wf(),
    {
        self.local.clone()
    }

    /// The published snapshot: the union of every kept source's latest
    /// records and the local records, deduplicated by identity. Its
    /// identities are exactly the merged identities, and every member is
    /// owed to some current contribution.
    pub fn records(&self) -> (out: RecordSet)
        requires
            self.wf(),
        ensures
            out.wf(),
            set_keys(out@) == merged_keys(self.source_map(), self.local_view()),
            forall|t: int|
                0 <= t < out@.len() ==> contributed(
                    self.source_map(),
                    self.local_view(),
                    #[trigger] out@[t],
                ),
    {
        let ghost s = self.sources@;
        let mut out = RecordSet::new();
        let mut i: usize = 0;
        proof {
            assert(set_keys(out@) =~= prefix_keys(s, 0));
        }
        while i < self.sources.len()
            invariant
                self.wf(),
                self.sources@ == s,
                0 <= i <= s.len(),
                out.wf(),
                set_keys(out@) == prefix_keys(s, i as int),
                forall|t: int|
                    0 <= t < out@.len() ==> from_prefix(s, i as int, #[trigger] out@[t]),
            decreases s.len() - i,
        {
            let set = &self.sources[i].1;
            proof {
                assert forall|t: int| 0 <= t < out@.len() implies from_prefix(
                    s,
                    i as int + 1,
                    #[trigger] out@[t],
                ) by {
                    lemma_from_prefix_widen(s, i as int, i as int + 1, out@[t]);
                }
            }
            let mut j: usize = 0;
            while j < set.len()
                invariant
                    self.wf(),
                    self.sources@ == s,
                    0 <= i < s.len(),
                    set == &s[i as int].1,
                    0 <= j <= set@.len(),
                    out.wf(),
                    set_keys(out@) == prefix_keys(s, i as int).union(
                        set_keys(s[i as int].1@.take(j as int)),
                    ),
                    forall|t: int|
                        0 <= t < out@.len() ==> from_prefix(s, i as int + 1, #[trigger] out@[t]),
                decreases set@.len() - j,
            {
                let r = set.get(j).clone();
                let ghost rv = r@;
                let ghost pre = out@;
                out.insert(r);
                j += 1;
                proof {
                    assert(rv == s[i as int].1@[j - 1]);
                    assert(s[i as int].1@.take(j as int).drop_last() =~= s[i as int].1@.take(
                        j as int - 1,
                    ));
                    assert(s[i as int].1@.take(j as int) =~= s[i as int].1@.take(j - 1).push(rv));
                    lemma_set_keys_push_general(s[i as int].1@.take(j - 1), rv);
                    assert(set_keys(out@) =~= prefix_keys(s, i as int).union(
                        set_keys(s[i as int].1@.take(j as int)),
                    ));
                    assert forall|t: int| 0 <= t < out@.len() implies from_prefix(
                        s,
                        i as int + 1,
                        #[trigger] out@[t],
                    ) by {
                        if t < pre.len() {
                            assert(out@[t] == pre[t]);
                        } else {
                            assert(out@[t] == rv);
                            assert(s[i as int].1@[j - 1] == out@[t]);
                        }
                    }
                }
            }
            i += 1;
            proof {
                assert(s[i - 1].1@.take(s[i - 1].1@.len() as int) =~= s[i - 1].1@);
                assert(set_keys(out@) =~= prefix_keys(s, i as int));
            }
        }
        let mut j: usize = 0;
        proof {
            assert(set_keys(out@) =~= prefix_keys(s, s.len() as int).union(
                set_keys(self.local@.take(0)),
            ));
        }
        while j < self.local.len()
            invariant
                self.wf(),
                self.sources@ == s,
                0 <= j <= self.local@.len(),
                out.wf(),
                set_keys(out@) == prefix_keys(s, s.len() as int).union(
                    set_keys(self.local@.take(j as int)),
                ),
                forall|t: int|
                    0 <= t < out@.len() ==> from_prefix(s, s.len() as int, #[trigger] out@[t])
                        || self.local@.contains(out@[t]),
            decreases self.local@.len() - j,
        {
            let r = self.local.get(j).clone();
            let ghost rv = r@;
            let ghost pre = out@;
            out.insert(r);
            j += 1;
            proof {
                assert(rv == self.local@[j - 1]);
                assert(self.local@.take(j as int).drop_last() =~= self.local@.take(j as int - 1));
                assert(self.local@.take(j as int) =~= self.local@.take(j - 1).push(rv));
                lemma_set_keys_push_general(self.local@.take(j - 1), rv);
                assert(set_keys(out@) =~= prefix_keys(s, s.len() as int).union(
                    set_keys(self.local@.take(j as int)),
                ));
                assert forall|t: int| 0 <= t < out@.len() implies from_prefix(
                    s,
                    s.len() as int,
                    #[trigger] out@[t],
                ) || self.local@.contains(out@[t]) by {
                    if t < pre.len() {
                        assert(out@[t] == pre[t]);
                    } else {
                        assert(out@[t] == rv);
                        assert(self.local@[j - 1] == out@[t]);
                    }
                }
            }
        }
        proof {
            assert(self.local@.take(self.local@.len() as int) =~= self.local@);
            let m = self.source_map();
            assert forall|k: (Seq<u8>, DataV)|
                set_keys(out@).contains(k) == merged_keys(m, self.local@).contains(k) by {
                lemma_prefix_keys_iff(s, s.len() as int, k);
                if prefix_keys(s, s.len() as int).contains(k) {
                    let ii = choose|ii: int|
                        0 <= ii < s.len() && has_key((#[trigger] s[ii]).1@, k);
                    lemma_map_at(s, ii);
                    assert(m.contains_key(s[ii].0) && has_key(m[s[ii].0], k));
                }
                if exists|id: SourceId| #[trigger] m.contains_key(id) && has_key(m[id], k) {
                    let id = choose|id: SourceId| #[trigger]
                        m.contains_key(id) && has_key(m[id], k);
                    let ii = idx_of(s, id);
                    assert(0 <= ii < s.len() && s[ii].0 == id);
                    lemma_map_at(s, ii);
                    assert(has_key(s[ii].1@, k));
                }
            }
            assert(set_keys(out@) =~= merged_keys(m, self.local@));
            assert forall|t: int| 0 <= t < out@.len() implies contributed(
                m,
                self.local@,
                #[trigger] out@[t],
            ) by {
                if from_prefix(s, s.len() as int, out@[t]) {
                    let (ii, jj) = choose|ii: int, jj: int|
                        0 <= ii < s.len() && 0 <= jj < s[ii].1@.len() && #[trigger] s[ii].1@[jj]
                            == out@[t];
                    lemma_map_at(s, ii);
                    assert(m[s[ii].0][jj] == out@[t]);
                    assert(m.contains_key(s[ii].0) && m[s[ii].0].contains(out@[t]));
                }
            }
        }
        out
    }
}

fn contains_id(keep: &Vec<SourceId>, id: &SourceId) -> (r: bool)
    ensures
        r == keep@.contains(*id),
{
    let mut i: usize = 0;
    while i < keep.len()
        invariant
            0 <= i <= keep@.len(),
            forall|j: int| 0 <= j < i ==> keep@[j] != *id,
        decreases keep@.len() - i,
    {
        if keep[i] == *id {
            return true;
        }
        i += 1;
    }
    false
}

proof fn lemma_set_keys_push_general(s: Seq<RecordV>, r: RecordV)
    ensures
        set_keys(s.push(r)) == set_keys(s).insert(rec_key(r)),
{
    assert forall|k: (Seq<u8>, DataV)| #[trigger]
        set_keys(s.push(r)).contains(k) implies set_keys(s).insert(rec_key(r)).contains(k) by {
        let i = choose|i: int| 0 <= i < s.push(r).len() && rec_key(#[trigger] s.push(r)[i]) == k;
        if i < s.len() {
            assert(rec_key(s[i]) == k);
        } else {
            assert(s.push(r)[i] == r);
        }
    }
    assert forall|k: (Seq<u8>, DataV)|
        set_keys(s).insert(rec_key(r)).contains(k) implies #[trigger] set_keys(s.push(r)).contains(
        k,
    ) by {
        if k == rec_key(r) {
            assert(rec_key(s.push(r)[s.len() as int]) == k);
        } else {
            let i = choose|i: int| 0 <= i < s.len() && rec_key(#[trigger] s[i]) == k;
            assert(rec_key(s.push(r)[i]) == k);
        }
    }
    assert(set_keys(s.push(r)) =~= set_keys(s).insert(rec_key(r)));
}


/// One aggregator call, as a value: a full-replacement snapshot, a clear,
/// or a prune to a kept set.
pub enum AggregatorOp {
    Add(SourceId, Seq<RecordV>),
    Clear(SourceId),
    Prune(Set<SourceId>),
}

/// The effect of one call on the contribution map.
pub open spec fn apply_op(
    m: Map<SourceId, Seq<RecordV>>,
    op: AggregatorOp,
) -> Map<SourceId, Seq<RecordV>> {
    match op {
        AggregatorOp::Add(id, rs) => m.insert(id, rs),
        AggregatorOp::Clear(id) => m.remove(id),
        AggregatorOp::Prune(keep) => m.restrict(keep),
    }
}

/// The effect of a call sequence, first call first.
pub open spec fn apply_ops(
    m: Map<SourceId, Seq<RecordV>>,
    ops: Seq<AggregatorOp>,
) -> Map<SourceId, Seq<RecordV>>
    decreases ops.len(),
{
    if ops.len() == 0 {
        m
    } else {
        apply_ops(apply_op(m, ops[0]), ops.skip(1))
    }
}

/// Whether `op` changes the contribution recorded for `id`.
pub open spec fn op_touches(op: AggregatorOp, id: SourceId) -> bool {
    match op {
        AggregatorOp::Add(i, _) => i == id,
        AggregatorOp::Clear(i) => i == id,
        AggregatorOp::Prune(keep) => !keep.contains(id),
    }
}

/// The subsequence of calls that affect `id`, in order.
pub open spec fn ops_for(ops: Seq<AggregatorOp>, id: SourceId) -> Seq<AggregatorOp>
    decreases ops.len(),
{
    if ops.len() == 0 {
        Seq::empty()
    } else {
        let rest = ops_for(ops.skip(1), id);
        if op_touches(ops[0], id) {
            seq![ops[0]] + rest
        } else {
            rest
        }
    }
}

/// One source's recorded contribution, if any.
pub open spec fn entry_of(m: Map<SourceId, Seq<RecordV>>, id: SourceId) -> Option<Seq<RecordV>> {
    if m.contains_key(id) {
        Some(m[id])
    } else {
        None
    }
}

/// One call's effect on one source's recorded contribution.
pub open spec fn apply_op_entry(e: Option<Seq<RecordV>>, op: AggregatorOp, id: SourceId) -> Option<
    Seq<RecordV>,
> {
    match op {
        AggregatorOp::Add(i, rs) => if i == id {
            Some(rs)
        } else {
            e
        },
        AggregatorOp::Clear(i) => if i == id {
            None
        } else {
            e
        },
        AggregatorOp::Prune(keep) => if !keep.contains(id) {
            None
        } else {
            e
        },
    }
}

spec fn apply_ops_entry(e: Option<Seq<RecordV>>, ops: Seq<AggregatorOp>, id: SourceId) -> Option<
    Seq<RecordV>,
>
    decreases ops.len(),
{
    if ops.len() == 0 {
        e
    } else {
        apply_ops_entry(apply_op_entry(e, ops[0], id), ops.skip(1), id)
    }
}

proof fn lemma_entry_commutes(m: Map<SourceId, Seq<RecordV>>, ops: Seq<AggregatorOp>, id: SourceId)
    ensures
        entry_of(apply_ops(m, ops), id) == apply_ops_entry(entry_of(m, id), ops, id),
    decreases ops.len(),
{
    if ops.len() == 0 {
    } else {
        assert(entry_of(apply_op(m, ops[0]), id) == apply_op_entry(entry_of(m, id), ops[0], id));
        lemma_entry_commutes(apply_op(m, ops[0]), ops.skip(1), id);
    }
}

proof fn lemma_untouched_dropped(e: Option<Seq<RecordV>>, ops: Seq<AggregatorOp>, id: SourceId)
    ensures
        apply_ops_entry(e, ops, id) == apply_ops_entry(e, ops_for(ops, id), id),
    decreases ops.len(),
{
    if ops.len() == 0 {
    } else {
        let e2 = apply_op_entry(e, ops[0], id);
        if op_touches(ops[0], id) {
            lemma_untouched_dropped(e2, ops.skip(1), id);
            let rest = ops_for(ops.skip(1), id);
            let whole = seq![ops[0]] + rest;
            assert(whole[0] == ops[0]);
            assert(whole.skip(1) =~= rest);
        } else {
            assert(e2 == e);
            lemma_untouched_dropped(e, ops.skip(1), id);
        }
    }
}

/// Law: the aggregator's final state depends only on each source's latest
/// calls, not on how calls for different sources interleave. Two call
/// sequences that agree, source by source, on the calls affecting that
/// source produce the same contribution map and hence the same merged
/// record identities.
pub proof fn lemma_convergence(
    m: Map<SourceId, Seq<RecordV>>,
    ops1: Seq<AggregatorOp>,
    ops2: Seq<AggregatorOp>,
    local: Seq<RecordV>,
)
    requires
        forall|id: SourceId| #[trigger] ops_for(ops1, id) == ops_for(ops2, id),
    ensures
        apply_ops(m, ops1) == apply_ops(m, ops2),
        merged_keys(apply_ops(m, ops1), local) == merged_keys(apply_ops(m, ops2), local),
{
    let r1 = apply_ops(m, ops1);
    let r2 = apply_ops(m, ops2);
    assert forall|id: SourceId| #[trigger] entry_of(r1, id) == entry_of(r2, id) by {
        lemma_entry_commutes(m, ops1, id);
        lemma_entry_commutes(m, ops2, id);
        lemma_untouched_dropped(entry_of(m, id), ops1, id);
        lemma_untouched_dropped(entry_of(m, id), ops2, id);
        assert(ops_for(ops1, id) == ops_for(ops2, id));
    }
    assert forall|id: SourceId| #[trigger] r1.contains_key(id) == r2.contains_key(id) by {
        assert(entry_of(r1, id) == entry_of(r2, id));
    }
    assert forall|id: SourceId| r1.contains_key(id) implies #[trigger] r1[id] == r2[id] by {
        assert(entry_of(r1, id) == entry_of(r2, id));
    }
    assert(r1 =~= r2);
}

/// What the last call touching `id` leaves behind: a replacement
/// snapshot, nothing after a clear or an excluding prune, or the starting
/// contribution when no call touches the source.
pub open spec fn last_op_effect(
    e: Option<Seq<RecordV>>,
    ops: Seq<AggregatorOp>,
    id: SourceId,
) -> Option<Seq<RecordV>>
    decreases ops.len(),
{
    if ops.len() == 0 {
        e
    } else if op_touches(ops.last(), id) {
        apply_op_entry(e, ops.last(), id)
    } else {
        last_op_effect(e, ops.drop_last(), id)
    }
}

proof fn lemma_ops_entry_append(
    e: Option<Seq<RecordV>>,
    a: Seq<AggregatorOp>,
    b: Seq<AggregatorOp>,
    id: SourceId,
)
    ensures
        apply_ops_entry(e, a + b, id) == apply_ops_entry(apply_ops_entry(e, a, id), b, id),
    decreases a.len(),
{
    if a.len() == 0 {
        assert(a + b =~= b);
    } else {
        assert((a + b)[0] == a[0]);
        assert((a + b).skip(1) =~= a.skip(1) + b);
        lemma_ops_entry_append(apply_op_entry(e, a[0], id), a.skip(1), b, id);
    }
}

proof fn lemma_last_call_decides_entry(
    e: Option<Seq<RecordV>>,
    ops: Seq<AggregatorOp>,
    id: SourceId,
)
    ensures
        apply_ops_entry(e, ops, id) == last_op_effect(e, ops, id),
    decreases ops.len(),
{
    if ops.len() == 0 {
    } else {
        let init = ops.drop_last();
        let lastop = ops.last();
        assert(ops =~= init + seq![lastop]);
        lemma_ops_entry_append(e, init, seq![lastop], id);
        let x = apply_ops_entry(e, init, id);
        assert(seq![lastop][0] == lastop);
        assert(seq![lastop].skip(1) =~= Seq::<AggregatorOp>::empty());
        let y = apply_op_entry(x, lastop, id);
        assert(apply_ops_entry(y, Seq::<AggregatorOp>::empty(), id) == y);
        assert(apply_ops_entry(x, seq![lastop], id) == apply_op_entry(x, lastop, id));
        if op_touches(lastop, id) {
            assert(apply_op_entry(x, lastop, id) == apply_op_entry(e, lastop, id));
        } else {
            lemma_last_call_decides_entry(e, init, id);
            assert(apply_op_entry(x, lastop, id) == x);
        }
        assert(apply_ops_entry(e, ops, id) == apply_ops_entry(e, init + seq![lastop], id));
    }
}

/// Law: after any call sequence, the contribution recorded for a source is
/// decided by the latest call that touches that source alone; every
/// earlier call for it, and every call for other sources, is immaterial.
pub proof fn lemma_latest_snapshot_wins(
    m: Map<SourceId, Seq<RecordV>>,
    ops: Seq<AggregatorOp>,
    id: SourceId,
)
    ensures
        entry_of(apply_ops(m, ops), id) == last_op_effect(entry_of(m, id), ops, id),
{
    lemma_entry_commutes(m, ops, id);
    lemma_last_call_decides_entry(entry_of(m, id), ops, id);
}

/// Law: pruning to `keep` and then re-adding a snapshot for a still-kept
/// source yields exactly the state that would exist had the pruned sources
/// never contributed at all.
pub proof fn lemma_prune_then_add(
    m: Map<SourceId, Seq<RecordV>>,
    keep: Set<SourceId>,
    id: SourceId,
    rs: Seq<RecordV>,
    local: Seq<RecordV>,
)
    requires
        keep.contains(id),
    ensures
        apply_ops(m, seq![AggregatorOp::Prune(keep), AggregatorOp::Add(id, rs)]) == apply_ops(
            m.restrict(keep),
            seq![AggregatorOp::Add(id, rs)],
        ),
        merged_keys(
            apply_ops(m, seq![AggregatorOp::Prune(keep), AggregatorOp::Add(id, rs)]),
            local,
        ) == merged_keys(apply_ops(m.restrict(keep), seq![AggregatorOp::Add(id, rs)]), local),
{
    let ops = seq![AggregatorOp::Prune(keep), AggregatorOp::Add(id, rs)];
    let single = seq![AggregatorOp::Add(id, rs)];
    assert(ops[0] == AggregatorOp::Prune(keep));
    assert(ops.skip(1)[0] == AggregatorOp::Add(id, rs));
    assert(ops.skip(1).skip(1) =~= Seq::<AggregatorOp>::empty());
    assert(single[0] == AggregatorOp::Add(id, rs));
    assert(single.skip(1) =~= Seq::<AggregatorOp>::empty());
    let m1 = apply_op(m, ops[0]);
    assert(m1 == m.restrict(keep));
    assert(apply_ops(m, ops) == apply_ops(m1, ops.skip(1)));
    let m2 = apply_op(m1, ops.skip(1)[0]);
    assert(m2 == m.restrict(keep).insert(id, rs));
    assert(apply_ops(m1, ops.skip(1)) == apply_ops(m2, ops.skip(1).skip(1)));
    assert(apply_ops(m2, ops.skip(1).skip(1)) == m2);
    assert(apply_ops(m.restrict(keep), single) == apply_ops(
        apply_op(m.restrict(keep), single[0]),
        single.skip(1),
    ));
    assert(apply_ops(apply_op(m.restrict(keep), single[0]), single.skip(1)) == m2);
}

} // verus!
