//! The metadata store, seen through its key-value contract: insert,
//! update, delete-by-key, get-by-key, get-all. Records are keyed by
//! their fingerprint, which stays unique.

use vstd::prelude::*;
use crate::foc_error::FocError;
use crate::metadata::Metadata;
use crate::metadata::MetadataV;
use crate::metadata::records_views;
use crate::metadata::views_of_strings;
use crate::text::str_eq;
use vstd::string::StringExecFns;

verus! {

/// No two records share a fingerprint.
pub open spec fn unique_record_hashes(ms: Seq<MetadataV>) -> bool {
    forall|i: int, j: int| 0 <= i < j < ms.len() ==> ms[i].hash != ms[j].hash
}

/// Whether some record carries this fingerprint.
pub open spec fn has_hash(ms: Seq<MetadataV>, h: Seq<char>) -> bool {
    exists|i: int| 0 <= i < ms.len() && (#[trigger] ms[i]).hash == h
}

/// The record under a fingerprint; meaningful only when [`has_hash`]
/// holds and fingerprints are unique.
pub open spec fn spec_get(ms: Seq<MetadataV>, h: Seq<char>) -> MetadataV {
    ms[choose|i: int| 0 <= i < ms.len() && (#[trigger] ms[i]).hash == h]
}

/// Every record whose fingerprint matches is replaced by the new value;
/// everything else stays.
pub open spec fn spec_store_update(ms: Seq<MetadataV>, m: MetadataV) -> Seq<MetadataV> {
    Seq::new(
        ms.len(),
        |i: int|
            if ms[i].hash == m.hash {
                m
            } else {
                ms[i]
            },
    )
}

/// The records whose fingerprint is in none of `hs`, in order.
pub open spec fn spec_store_delete(ms: Seq<MetadataV>, hs: Seq<Seq<char>>) -> Seq<MetadataV>
    decreases ms.len(),
{
    if ms.len() == 0 {
        Seq::empty()
    } else {
        spec_store_delete(ms.drop_last(), hs) + (if hs.contains(ms.last().hash) {
            Seq::empty()
        } else {
            seq![ms.last()]
        })
    }
}

/// What leaves and what stays under [`spec_store_delete`].
pub proof fn lemma_store_delete_elems(ms: Seq<MetadataV>, hs: Seq<Seq<char>>)
    ensures
        forall|k: int|
            0 <= k < spec_store_delete(ms, hs).len() ==> !hs.contains(
                (#[trigger] spec_store_delete(ms, hs)[k]).hash,
            ) && ms.contains(spec_store_delete(ms, hs)[k]),
    decreases ms.len(),
{
    if ms.len() > 0 {
        lemma_store_delete_elems(ms.drop_last(), hs);
        let r = spec_store_delete(ms, hs);
        let r0 = spec_store_delete(ms.drop_last(), hs);
        assert forall|k: int| 0 <= k < r.len() implies !hs.contains((#[trigger] r[k]).hash)
            && ms.contains(r[k]) by {
            if k < r0.len() {
                assert(r[k] == r0[k]);
                let j = choose|j: int| 0 <= j < ms.drop_last().len() && ms.drop_last()[j] == r0[k];
                assert(ms[j] == r0[k]);
            } else {
                assert(r[k] == ms.last());
            }
        }
    }
}

/// [`spec_store_delete`] keeps fingerprints unique.
pub proof fn lemma_store_delete_unique(ms: Seq<MetadataV>, hs: Seq<Seq<char>>)
    requires
        unique_record_hashes(ms),
    ensures
        unique_record_hashes(spec_store_delete(ms, hs)),
    decreases ms.len(),
{
    if ms.len() > 0 {
        let prefix = ms.drop_last();
        assert(unique_record_hashes(prefix));
        lemma_store_delete_unique(prefix, hs);
        lemma_store_delete_elems(prefix, hs);
        let r = spec_store_delete(ms, hs);
        let r0 = spec_store_delete(prefix, hs);
        if !hs.contains(ms.last().hash) {
            assert forall|i: int, j: int| 0 <= i < j < r.len() implies r[i].hash != r[j].hash by {
                if j < r0.len() {
                } else {
                    assert(r[j] == ms.last());
                    assert(r[i] == r0[i]);
                    let k = choose|k: int| 0 <= k < prefix.len() && prefix[k] == r0[i];
                    assert(ms[k] == r0[i]);
                    assert(ms[k].hash != ms[ms.len() - 1].hash);
                }
            }
        }
    }
}

/// The in-memory image of the metadata store.
pub struct MetadataStore {
    records: Vec<Metadata>,
}

impl MetadataStore {
    /// The records the store holds, in insertion order.
    pub closed spec fn records_view(&self) -> Seq<MetadataV> {
        records_views(self.records@)
    }

    /// The store invariant: fingerprints are unique.
    pub open spec fn wf(&self) -> bool {
        unique_record_hashes(self.records_view())
    }

    /// An empty store.
    pub fn new() -> (s: MetadataStore)
        ensures
            s.records_view() == Seq::<MetadataV>::empty(),
            s.wf(),
    {
        let s = MetadataStore { records: Vec::new() };
        proof {
            assert(s.records_view() =~= Seq::<MetadataV>::empty());
        }
        s
    }

    /// Adds a new record. A fingerprint already present is refused, and
    /// the store is unchanged; otherwise the record is appended.
    pub fn insert_metadata(&mut self, m: Metadata) -> (r: Result<(), FocError>)
        requires
            old(self).wf(),
        ensures
            final(self).wf(),
            r is Ok <==> !has_hash(old(self).records_view(), m@.hash),
            r is Ok ==> final(self).records_view() == old(self).records_view().push(m@),
            r is Err ==> final(self).records_view() == old(self).records_view() && r->Err_0
                is Store,
    {
        let ghost ms = self.records_view();
        let n = self.records.len();
        let mut i: usize = 0;
        while i < n
            invariant
                i <= n == self.records@.len(),
                *self == *old(self),
                self.wf(),
                ms == records_views(self.records@),
                forall|k: int| 0 <= k < i ==> (#[trigger] ms[k]).hash != m@.hash,
            decreases n - i,
        {
            if str_eq(self.records[i].hash.as_str(), m.hash.as_str()) {
                proof {
                    assert(ms[i as int].hash == m@.hash);
                }
                return Err(FocError::Store(String::from_str("Fingerprint already stored")));
            }
            i = i + 1;
        }
        let ghost pre = self.records@;
        self.records.push(m);
        proof {
            assert(records_views(self.records@) =~= records_views(pre).push(m@));
            if has_hash(ms, m@.hash) {
                let k = choose|k: int| 0 <= k < ms.len() && (#[trigger] ms[k]).hash == m@.hash;
                assert(false);
            }
        }
        Ok(())
    }

    /// Looks a fingerprint up. Present fingerprints return their record;
    /// absent ones fail with a store error.
    pub fn get_metadata_by_hash(&self, hash: &str) -> (r: Result<Metadata, FocError>)
        requires
            self.wf(),
        ensures
            r is Ok <==> has_hash(self.records_view(), hash@),
            r is Ok ==> r->Ok_0@ == spec_get(self.records_view(), hash@),
            r is Err ==> r->Err_0 is Store,
    {
        let ghost ms = self.records_view();
        let n = self.records.len();
        let mut i: usize = 0;
        while i < n
            invariant
                i <= n == self.records@.len(),
                ms == records_views(self.records@),
                self.wf(),
                forall|k: int| 0 <= k < i ==> (#[trigger] ms[k]).hash != hash@,
            decreases n - i,
        {
            if str_eq(self.records[i].hash.as_str(), hash) {
                let found = self.records[i].duplicate();
                proof {
                    assert(ms[i as int].hash == hash@);
                    assert(has_hash(ms, hash@));
                    let j = choose|j: int| 0 <= j < ms.len() && (#[trigger] ms[j]).hash == hash@;
                    assert(ms[j] == spec_get(ms, hash@));
                    assert(j == i as int);
                }
                return Ok(found);
            }
            i = i + 1;
        }
        proof {
            if has_hash(ms, hash@) {
                let k = choose|k: int| 0 <= k < ms.len() && (#[trigger] ms[k]).hash == hash@;
                assert(false);
            }
        }
        Err(FocError::Store(String::from_str("No record under this fingerprint")))
    }

    /// Overwrites the record under the given record's fingerprint; a
    /// fingerprint not in the store changes nothing.
    pub fn update_metadata(&mut self, m: Metadata) -> (r: Result<(), FocError>)
        requires
            old(self).wf(),
        ensures
            r is Ok,
            final(self).wf(),
            final(self).records_view() == spec_store_update(old(self).records_view(), m@),
    {
        let ghost ms = self.records_view();
        let n = self.records.len();
        let mut out: Vec<Metadata> = Vec::new();
        let mut i: usize = 0;
        while i < n
            invariant
                i <= n == self.records@.len(),
                ms == records_views(self.records@),
                out@.len() == i,
                forall|k: int|
                    0 <= k < i ==> records_views(out@)[k] == spec_store_update(ms, m@)[k],
            decreases n - i,
        {
            let ghost pre = out@;
            if str_eq(self.records[i].hash.as_str(), m.hash.as_str()) {
                out.push(m.duplicate());
            } else {
                out.push(self.records[i].duplicate());
            }
            proof {
                assert(ms[i as int] == self.records@[i as int]@);
                assert forall|k: int| 0 <= k < i + 1 implies records_views(out@)[k]
                    == spec_store_update(ms, m@)[k] by {
                    if k < i {
                        assert(records_views(out@)[k] == records_views(pre)[k]);
                    } else {
                        assert(records_views(out@)[k] == out@[k]@);
                    }
                }
            }
            i = i + 1;
        }
        self.records = out;
        proof {
            assert(records_views(self.records@) =~= spec_store_update(ms, m@));
            assert forall|a: int, b: int|
                0 <= a < b < spec_store_update(ms, m@).len() implies spec_store_update(
                ms,
                m@,
            )[a].hash != spec_store_update(ms, m@)[b].hash by {
                assert(ms[a].hash != ms[b].hash);
            }
        }
        Ok(())
    }

    /// Removes every record whose fingerprint is among the given ones.
    pub fn delete_metadata(&mut self, hashes: &Vec<String>) -> (r: Result<(), FocError>)
        requires
            old(self).wf(),
        ensures
            r is Ok,
            final(self).wf(),
            final(self).records_view() == spec_store_delete(
                old(self).records_view(),
                views_of_strings(hashes@),
            ),
    {
        let ghost ms = self.records_view();
        let ghost hs = views_of_strings(hashes@);
        let n = self.records.len();
        let mut out: Vec<Metadata> = Vec::new();
        let mut i: usize = 0;
        proof {
            assert(ms.take(0) =~= Seq::<MetadataV>::empty());
            assert(records_views(out@) =~= spec_store_delete(ms.take(0), hs));
        }
        while i < n
            invariant
                i <= n == self.records@.len(),
                ms == records_views(self.records@),
                hs == views_of_strings(hashes@),
                records_views(out@) == spec_store_delete(ms.take(i as int), hs),
            decreases n - i,
        {
            proof {
                assert(ms.take(i + 1).drop_last() =~= ms.take(i as int));
                assert(ms.take(i + 1).last() == ms[i as int]);
            }
            if !crate::searcher::contains_string(hashes, self.records[i].hash.as_str()) {
                let c = self.records[i].duplicate();
                let ghost pre = out@;
                out.push(c);
                proof {
                    assert(records_views(out@) =~= records_views(pre).push(ms[i as int]));
                    assert(records_views(out@) =~= spec_store_delete(ms.take(i + 1), hs));
                }
            } else {
                proof {
                    assert(records_views(out@) + Seq::<MetadataV>::empty() =~= records_views(
                        out@,
                    ));
                    assert(records_views(out@) =~= spec_store_delete(ms.take(i + 1), hs));
                }
            }
            i = i + 1;
        }
        proof {
            assert(ms.take(ms.len() as int) =~= ms);
            lemma_store_delete_unique(ms, hs);
        }
        self.records = out;
        Ok(())
    }

    /// Every record, in store order.
    pub fn get_all_metadata(&self) -> (r: Vec<Metadata>)
        ensures
            records_views(r@) == self.records_view(),
    {
        let n = self.records.len();
        let mut out: Vec<Metadata> = Vec::new();
        let mut i: usize = 0;
        while i < n
            invariant
                i <= n == self.records@.len(),
                out@.len() == i,
                forall|k: int|
                    0 <= k < i ==> records_views(out@)[k] == records_views(self.records@)[k],
            decreases n - i,
        {
            let ghost pre = out@;
            out.push(self.records[i].duplicate());
            proof {
                assert forall|k: int| 0 <= k < i + 1 implies records_views(out@)[k]
                    == records_views(self.records@)[k] by {
                    if k < i {
                        assert(records_views(out@)[k] == records_views(pre)[k]);
                    } else {
                        assert(records_views(out@)[k] == out@[k]@);
                        assert(records_views(self.records@)[k] == self.records@[k]@);
                    }
                }
            }
            i = i + 1;
        }
        proof {
            assert(records_views(out@) =~= records_views(self.records@));
        }
        out
    }

    /// The tags column of every record, in store order.
    pub fn get_all_tags(&self) -> (r: Vec<Option<Vec<String>>>)
        ensures
            r@.len() == self.records_view().len(),
            forall|k: int|
                0 <= k < r@.len() ==> (match r@[k] {
                    Some(ref v) => Some(views_of_strings(v@)),
                    None => None,
                }) == (#[trigger] self.records_view()[k]).tags,
    {
        let n = self.records.len();
        let mut out: Vec<Option<Vec<String>>> = Vec::new();
        let mut i: usize = 0;
        while i < n
            invariant
                i <= n == self.records@.len(),
                out@.len() == i,
                forall|k: int|
                    0 <= k < i ==> (match out@[k] {
                        Some(ref v) => Some(views_of_strings(v@)),
                        None => None,
                    }) == (#[trigger] records_views(self.records@)[k]).tags,
            decreases n - i,
        {
            let entry: Option<Vec<String>> = match &self.records[i].tags {
                Some(v) => Some(crate::text::clone_strings(v)),
                None => None,
            };
            proof {
                match self.records@[i as int].tags {
                    Some(ref v) => {
                        assert(views_of_strings(entry->0@) =~= views_of_strings(v@));
                    },
                    None => {},
                }
            }
            out.push(entry);
            i = i + 1;
        }
        out
    }
}

} // verus!
