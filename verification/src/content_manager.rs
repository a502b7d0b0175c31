//! The ingestion orchestrator and engine context: one store and one
//! index, constructed once and passed by reference to every operation.
//! Every index mutation is followed synchronously by the next search
//! seeing it: there is no eventual-consistency window.

use vstd::prelude::*;
use crate::classify::sniff;
use crate::classify::sniff_of;
use crate::classify::spec_from_kind;
use crate::file_utils::extract_attributes;
use crate::fingerprint::fingerprint_bytes;
use crate::fingerprint::spec_fingerprint;
use crate::foc_error::FocError;
use crate::metadata::ContentType;
use crate::metadata::Metadata;
use crate::metadata::MetadataV;
use crate::metadata::Status;
use crate::metadata::records_views;
use crate::metadata::views_of_strings;
use crate::searcher::DocV;
use crate::searcher::SearchIndex;
use crate::searcher::doc_of;
use crate::searcher::remove_hashes;
use crate::searcher::spec_index_batch;
use crate::searcher::spec_search;
use crate::searcher::spec_upsert;
use crate::store::MetadataStore;
use crate::store::has_hash;
use crate::store::spec_get;
use crate::store::spec_store_delete;
use crate::store::spec_store_update;
use crate::text::spec_query_words;
use crate::thumbnail::ThumbnailImage;

verus! {

/// How many documents a search returns at most.
pub const DESIRED_AMOUNT_OF_DOCS: usize = 30;

/// The engine context: the metadata store and the search index, with
/// the index always reflecting the store's last committed batch.
pub struct Library {
    store: MetadataStore,
    index: SearchIndex,
}

impl Library {
    /// The records the store holds.
    pub closed spec fn store_view(&self) -> Seq<MetadataV> {
        self.store.records_view()
    }

    /// The documents the index holds.
    pub closed spec fn index_view(&self) -> Seq<DocV> {
        self.index.docs_view()
    }

    /// Both halves keep fingerprints unique.
    pub open spec fn wf(&self) -> bool {
        crate::store::unique_record_hashes(self.store_view())
            && crate::searcher::unique_hashes(self.index_view())
    }

    /// A fresh, empty library.
    pub fn new() -> (s: Library)
        ensures
            s.store_view() == Seq::<MetadataV>::empty(),
            s.index_view() == Seq::<DocV>::empty(),
            s.wf(),
    {
        Library { store: MetadataStore::new(), index: SearchIndex::new() }
    }

    /// Removes the records under the given fingerprints from the store
    /// and their documents from the index; the next search no longer
    /// returns them.
    pub fn delete_content(&mut self, hashes: &Vec<String>) -> (r: Result<(), FocError>)
        requires
            old(self).wf(),
        ensures
            r is Ok,
            final(self).wf(),
            final(self).store_view() == spec_store_delete(
                old(self).store_view(),
                views_of_strings(hashes@),
            ),
            final(self).index_view() == remove_hashes(
                old(self).index_view(),
                views_of_strings(hashes@),
            ),
    {
        self.store.delete_metadata(hashes)?;
        self.index.delete_metadata(hashes)?;
        Ok(())
    }

    /// Replaces a record's stored row and its index document — tags and
    /// notes edits included — inside one commit each; the next search
    /// sees only the new document.
    pub fn update_content(&mut self, metadata: Metadata) -> (r: Result<(), FocError>)
        requires
            old(self).wf(),
        ensures
            r is Ok,
            final(self).wf(),
            final(self).store_view() == spec_store_update(old(self).store_view(), metadata@),
            final(self).index_view() == spec_upsert(old(self).index_view(), doc_of(metadata@)),
    {
        self.index.update_metadata(&metadata)?;
        self.store.update_metadata(metadata)?;
        Ok(())
    }

    /// Resolves a list of fingerprints to their full records; any
    /// fingerprint the store does not hold fails the whole call.
    pub fn get_metadata_by_hashes(&self, hashes: Vec<String>) -> (r: Result<Vec<Metadata>, FocError>)
        requires
            self.wf(),
        ensures
            r is Ok <==> (forall|k: int|
                0 <= k < hashes@.len() ==> has_hash(
                    self.store_view(),
                    #[trigger] views_of_strings(hashes@)[k],
                )),
            r matches Ok(v) ==> v@.len() == hashes@.len() && (forall|k: int|
                0 <= k < hashes@.len() ==> records_views(v@)[k] == spec_get(
                    self.store_view(),
                    #[trigger] views_of_strings(hashes@)[k],
                )),
            r is Err ==> r->Err_0 is Store,
    {
        let mut out: Vec<Metadata> = Vec::new();
        let mut i: usize = 0;
        while i < hashes.len()
            invariant
                i <= hashes@.len(),
                self.wf(),
                out@.len() == i,
                forall|k: int|
                    0 <= k < i ==> has_hash(
                        self.store_view(),
                        #[trigger] views_of_strings(hashes@)[k],
                    ),
                forall|k: int|
                    0 <= k < i ==> records_views(out@)[k] == spec_get(
                        self.store_view(),
                        #[trigger] views_of_strings(hashes@)[k],
                    ),
            decreases hashes@.len() - i,
        {
            let m = match self.store.get_metadata_by_hash(hashes[i].as_str()) {
                Ok(m) => m,
                Err(e) => {
                    proof {
                        assert(!has_hash(self.store_view(), views_of_strings(hashes@)[i as int]));
                    }
                    return Err(e);
                },
            };
            let ghost pre = out@;
            out.push(m);
            proof {
                assert forall|k: int| 0 <= k < i + 1 implies records_views(out@)[k] == spec_get(
                    self.store_view(),
                    #[trigger] views_of_strings(hashes@)[k],
                ) by {
                    if k < i {
                        assert(records_views(out@)[k] == records_views(pre)[k]);
                    } else {
                        assert(records_views(out@)[k] == out@[k]@);
                    }
                }
            }
            i = i + 1;
        }
        Ok(out)
    }

    /// Searches the library: three fuzzy passes over the index, capped
    /// and deduplicated, each hit resolved back to its full record. A
    /// hit whose record is gone from the store is a consistency fault
    /// and fails the search.
    pub fn search_content(&self, query: &str) -> (r: Result<Vec<Metadata>, FocError>)
        requires
            self.wf(),
        ensures
            ({
                let hits = spec_search(
                    self.index_view(),
                    spec_query_words(query@),
                    DESIRED_AMOUNT_OF_DOCS as nat,
                );
                &&& (r is Ok <==> (forall|k: int|
                    0 <= k < hits.len() ==> has_hash(self.store_view(), #[trigger] hits[k])))
                &&& (r matches Ok(v) ==> v@.len() == hits.len() && (forall|k: int|
                    0 <= k < hits.len() ==> records_views(v@)[k] == spec_get(
                        self.store_view(),
                        #[trigger] hits[k],
                    )))
                &&& (r is Err ==> r->Err_0 is Store)
            }),
    {
        let hits = self.index.search(query, DESIRED_AMOUNT_OF_DOCS);
        let ghost hv = spec_search(
            self.index_view(),
            spec_query_words(query@),
            DESIRED_AMOUNT_OF_DOCS as nat,
        );
        let mut out: Vec<Metadata> = Vec::new();
        let mut i: usize = 0;
        while i < hits.len()
            invariant
                i <= hits@.len(),
                self.wf(),
                views_of_strings(hits@) == hv,
                hv == spec_search(
                    self.index_view(),
                    spec_query_words(query@),
                    DESIRED_AMOUNT_OF_DOCS as nat,
                ),
                out@.len() == i,
                forall|k: int| 0 <= k < i ==> has_hash(self.store_view(), #[trigger] hv[k]),
                forall|k: int|
                    0 <= k < i ==> records_views(out@)[k] == spec_get(
                        self.store_view(),
                        #[trigger] hv[k],
                    ),
            decreases hits@.len() - i,
        {
            let m = match self.store.get_metadata_by_hash(hits[i].as_str()) {
                Ok(m) => m,
                Err(e) => {
                    proof {
                        assert(hits@[i as int]@ == hv[i as int]);
                        assert(!has_hash(self.store_view(), hv[i as int]));
                    }
                    return Err(e);
                },
            };
            let ghost pre = out@;
            out.push(m);
            proof {
                assert(hits@[i as int]@ == hv[i as int]);
                assert forall|k: int| 0 <= k < i + 1 implies records_views(out@)[k] == spec_get(
                    self.store_view(),
                    #[trigger] hv[k],
                ) by {
                    if k < i {
                        assert(records_views(out@)[k] == records_views(pre)[k]);
                    } else {
                        assert(records_views(out@)[k] == out@[k]@);
                    }
                }
            }
            i = i + 1;
        }
        Ok(out)
    }
}

/// A tag list sorted lexicographically with no repeats.
pub open spec fn sorted_distinct_tags(s: Seq<Seq<char>>) -> bool {
    forall|i: int, j: int|
        0 <= i < j < s.len() ==> crate::text::lex_le(s[i], s[j]) && s[i] != s[j]
}

/// The tags of every record, flattened in store order.
pub open spec fn all_tags(ms: Seq<MetadataV>) -> Seq<Seq<char>>
    decreases ms.len(),
{
    if ms.len() == 0 {
        Seq::empty()
    } else {
        all_tags(ms.drop_last()) + (match ms.last().tags {
            Some(t) => t,
            None => Seq::empty(),
        })
    }
}

/// Ordering is reflexive.
proof fn lemma_lex_le_refl(a: Seq<char>)
    ensures
        crate::text::lex_le(a, a),
    decreases a.len(),
{
    if a.len() > 0 {
        lemma_lex_le_refl(a.drop_first());
    }
}

/// Membership in a concatenation is membership in either part.
proof fn lemma_concat_contains(a: Seq<Seq<char>>, b: Seq<Seq<char>>, x: Seq<char>)
    ensures
        (a + b).contains(x) <==> a.contains(x) || b.contains(x),
{
    if (a + b).contains(x) {
        let i = choose|i: int| 0 <= i < (a + b).len() && (a + b)[i] == x;
        if i < a.len() {
            assert(a[i] == x);
        } else {
            assert(b[i - a.len()] == x);
        }
    }
    if a.contains(x) {
        let i = choose|i: int| 0 <= i < a.len() && a[i] == x;
        assert((a + b)[i] == x);
    }
    if b.contains(x) {
        let i = choose|i: int| 0 <= i < b.len() && b[i] == x;
        assert((a + b)[a.len() + i] == x);
    }
}

/// Inserts a tag into a sorted duplicate-free list, keeping it sorted
/// and duplicate-free; a tag already present changes nothing.
fn insert_tag(out: &mut Vec<String>, t: &String)
    requires
        sorted_distinct_tags(views_of_strings(old(out)@)),
    ensures
        sorted_distinct_tags(views_of_strings(final(out)@)),
        forall|x: Seq<char>|
            #![trigger views_of_strings(final(out)@).contains(x)]
            views_of_strings(final(out)@).contains(x) <==> (views_of_strings(
                old(out)@,
            ).contains(x) || x == t@),
{
    let ghost ov = views_of_strings(out@);
    let n = out.len();
    let mut k: usize = 0;
    while k < n && !crate::text::str_le(t.as_str(), out[k].as_str())
        invariant
            k <= n == out@.len(),
            out@ == old(out)@,
            ov == views_of_strings(out@),
            sorted_distinct_tags(ov),
            forall|m: int| 0 <= m < k ==> !crate::text::lex_le(t@, #[trigger] ov[m]),
        decreases n - k,
    {
        proof {
            assert(out@[k as int]@ == ov[k as int]);
        }
        k = k + 1;
    }
    proof {
        assert forall|m: int| 0 <= m < k implies crate::text::lex_le(#[trigger] ov[m], t@)
            && ov[m] != t@ by {
            crate::text::lemma_lex_le_total(t@, ov[m]);
            if ov[m] == t@ {
                lemma_lex_le_refl(t@);
            }
        }
    }
    if k < n {
        proof {
            assert(out@[k as int]@ == ov[k as int]);
        }
        if crate::text::str_eq(t.as_str(), out[k].as_str()) {
            proof {
                assert(ov[k as int] == t@);
                assert(ov.contains(t@));
            }
            return ;
        }
    }
    proof {
        if k < n {
            assert(crate::text::lex_le(t@, ov[k as int]));
            assert(t@ != ov[k as int]);
        }
    }
    let ghost pre = out@;
    out.insert(k, t.clone());
    proof {
        let nv = views_of_strings(out@);
        assert(out@ =~= pre.insert(k as int, out@[k as int]));
        assert(out@[k as int]@ == t@);
        assert(nv.len() == ov.len() + 1);
        assert forall|j: int| 0 <= j < nv.len() implies nv[j] == (if j < k {
            ov[j]
        } else if j == k {
            t@
        } else {
            ov[j - 1]
        }) by {
            if j < k {
                assert(out@[j] == pre[j]);
            } else if j > k {
                assert(out@[j] == pre[j - 1]);
            }
        }
        assert forall|i: int, j: int| 0 <= i < j < nv.len() implies crate::text::lex_le(
            nv[i],
            nv[j],
        ) && nv[i] != nv[j] by {
            if j < k {
            } else if i < k && j == k {
            } else if i == k && j > k {
                if j - 1 == k {
                } else {
                    crate::text::lemma_lex_le_trans(t@, ov[k as int], ov[j - 1]);
                    if t@ == ov[j - 1] {
                        crate::text::lemma_lex_le_antisym(t@, ov[k as int]);
                    }
                }
            } else if i < k && j > k {
            } else {
            }
        }
        assert forall|x: Seq<char>|
            #![trigger nv.contains(x)]
            nv.contains(x) <==> (ov.contains(x) || x == t@) by {
            if nv.contains(x) {
                let j = choose|j: int| 0 <= j < nv.len() && nv[j] == x;
                if j < k {
                    assert(ov[j] == x);
                } else if j > k {
                    assert(ov[j - 1] == x);
                }
            }
            if ov.contains(x) {
                let j = choose|j: int| 0 <= j < ov.len() && ov[j] == x;
                if j < k {
                    assert(nv[j] == x);
                } else {
                    assert(nv[j + 1] == x);
                }
            }
            if x == t@ {
                assert(nv[k as int] == x);
            }
        }
    }
}

impl Library {
    /// Every tag used anywhere in the library, each exactly once, in
    /// lexicographic order.
    #[verifier::rlimit(50)]
    pub fn get_all_tags(&self) -> (r: Vec<String>)
        ensures
            sorted_distinct_tags(views_of_strings(r@)),
            forall|x: Seq<char>|
                #![trigger views_of_strings(r@).contains(x)]
                views_of_strings(r@).contains(x) <==> all_tags(self.store_view()).contains(x),
    {
        let ghost sv = self.store_view();
        let raw = self.store.get_all_tags();
        let mut out: Vec<String> = Vec::new();
        let mut i: usize = 0;
        proof {
            assert(sv.take(0) =~= Seq::<MetadataV>::empty());
            assert(all_tags(sv.take(0)) =~= Seq::<Seq<char>>::empty());
        }
        while i < raw.len()
            invariant
                i <= raw@.len(),
                sv == self.store_view(),
                raw@.len() == sv.len(),
                forall|k: int|
                    0 <= k < raw@.len() ==> (match raw@[k] {
                        Some(ref v) => Some(views_of_strings(v@)),
                        None => None,
                    }) == (#[trigger] sv[k]).tags,
                sorted_distinct_tags(views_of_strings(out@)),
                forall|x: Seq<char>|
                    #![trigger views_of_strings(out@).contains(x)]
                    views_of_strings(out@).contains(x) <==> all_tags(sv.take(i as int)).contains(
                        x,
                    ),
            decreases raw@.len() - i,
        {
            proof {
                assert(sv.take(i + 1).drop_last() =~= sv.take(i as int));
                assert(sv.take(i + 1).last() == sv[i as int]);
            }
            match &raw[i] {
                Some(tags) => {
                    let ghost tv = views_of_strings(tags@);
                    proof {
                        assert(Some(tv) == sv[i as int].tags);
                        assert(tv.take(0) =~= Seq::<Seq<char>>::empty());
                    }
                    let mut j: usize = 0;
                    while j < tags.len()
                        invariant
                            j <= tags@.len(),
                            tv == views_of_strings(tags@),
                            sorted_distinct_tags(views_of_strings(out@)),
                            forall|x: Seq<char>|
                                #![trigger views_of_strings(out@).contains(x)]
                                views_of_strings(out@).contains(x) <==> (all_tags(
                                    sv.take(i as int),
                                ).contains(x) || tv.take(j as int).contains(x)),
                        decreases tags@.len() - j,
                    {
                        let ghost before = views_of_strings(out@);
                        insert_tag(&mut out, &tags[j]);
                        proof {
                            assert(tags@[j as int]@ == tv[j as int]);
                            assert forall|x: Seq<char>|
                                #![trigger views_of_strings(out@).contains(x)]
                                views_of_strings(out@).contains(x) <==> (all_tags(
                                    sv.take(i as int),
                                ).contains(x) || tv.take(j + 1).contains(x)) by {
                                assert(views_of_strings(out@).contains(x) <==> (before.contains(x)
                                    || x == tv[j as int]));
                                assert(before.contains(x) <==> (all_tags(
                                    sv.take(i as int),
                                ).contains(x) || tv.take(j as int).contains(x)));
                                assert(tv.take(j + 1) =~= tv.take(j as int) + seq![tv[j as int]]);
                                lemma_concat_contains(tv.take(j as int), seq![tv[j as int]], x);
                                if seq![tv[j as int]].contains(x) {
                                    let q = choose|q: int|
                                        0 <= q < 1 && seq![tv[j as int]][q] == x;
                                    assert(x == tv[j as int]);
                                }
                                if x == tv[j as int] {
                                    assert(seq![tv[j as int]][0] == x);
                                    assert(seq![tv[j as int]].contains(x));
                                }
                            }
                        }
                        j = j + 1;
                    }
                    proof {
                        assert(tv.take(tv.len() as int) =~= tv);
                        assert(all_tags(sv.take(i + 1)) == all_tags(sv.take(i as int)) + tv);
                        assert forall|x: Seq<char>|
                            #![trigger views_of_strings(out@).contains(x)]
                            views_of_strings(out@).contains(x) <==> all_tags(
                                sv.take(i + 1),
                            ).contains(x) by {
                            assert(views_of_strings(out@).contains(x) <==> (all_tags(
                                sv.take(i as int),
                            ).contains(x) || tv.take(tv.len() as int).contains(x)));
                            lemma_concat_contains(all_tags(sv.take(i as int)), tv, x);
                        }
                    }
                },
                None => {
                    proof {
                        assert(sv[i as int].tags is None);
                        assert(all_tags(sv.take(i + 1)) =~= all_tags(sv.take(i as int)));
                        assert forall|x: Seq<char>|
                            #![trigger views_of_strings(out@).contains(x)]
                            views_of_strings(out@).contains(x) <==> all_tags(
                                sv.take(i + 1),
                            ).contains(x) by {
                            assert(views_of_strings(out@).contains(x) <==> all_tags(
                                sv.take(i as int),
                            ).contains(x));
                        }
                    }
                },
            }
            i = i + 1;
        }
        proof {
            assert(sv.take(sv.len() as int) =~= sv);
        }
        out
    }
}

/// One file handed to ingestion: its path and its bytes, or nothing
/// when the file could not be read.
pub struct FileIngest {
    pub path: String,
    pub content: Option<Vec<u8>>,
}

/// The mathematical shape of an ingestion input.
pub ghost struct FileIngestV {
    pub path: Seq<char>,
    pub content: Option<Seq<u8>>,
}

impl View for FileIngest {
    type V = FileIngestV;

    open spec fn view(&self) -> FileIngestV {
        FileIngestV {
            path: self.path@,
            content: match self.content {
                Some(ref b) => Some(b@),
                None => None,
            },
        }
    }
}

/// The views of a sequence of ingestion inputs.
pub open spec fn files_views(fs: Seq<FileIngest>) -> Seq<FileIngestV> {
    Seq::new(fs.len(), |i: int| fs[i]@)
}

/// What ingestion pins down about the record built for one file: its
/// fingerprint is the content digest, its name the path's stem, its
/// content type and extension are the classification's, its attributes
/// are exactly what extraction yields, it is valid, freshly stamped,
/// and carries no tags or notes.
pub open spec fn ingested_record_ok(m: MetadataV, f: FileIngestV, now: i32) -> bool {
    match f.content {
        Some(bytes) => {
            &&& m.hash == spec_fingerprint(bytes)
            &&& m.name == crate::directory::spec_stem(f.path)
            &&& m.path == f.path
            &&& m.status is Valid
            &&& m.timestamp_created == now
            &&& m.timestamp_modified == now
            &&& m.tags is None
            &&& m.notes is None
            &&& crate::classify::spec_classification(bytes, f.path) == Some(
                (m.content_type, m.extension),
            )
            &&& (m.width, m.height, m.duration) == crate::file_utils::spec_attributes(
                m.content_type,
                bytes,
            )
        },
        None => false,
    }
}

/// Whether an ingested record gets a thumbnail artifact: only images
/// whose extension dispatches to a decoder.
pub open spec fn wants_artifact(m: MetadataV) -> bool {
    m.content_type is Image && crate::thumbnail::spec_thumb_decision(m.extension) is Render
}

/// The artifact an image record yields in a successful batch: its
/// fingerprint, and the rendered PNG bytes and pixel size.
pub open spec fn spec_artifact(m: MetadataV, bytes: Seq<u8>) -> (Seq<char>, Seq<u8>, i32, i32) {
    match crate::thumbnail::spec_thumb_decision(m.extension) {
        crate::thumbnail::ThumbDecision::Render(f) => match crate::thumbnail::large_thumb_of(
            bytes,
            f,
        ) {
            Some(t) => (m.hash, t.0, t.1 as i32, t.2 as i32),
            None => (m.hash, Seq::empty(), 0, 0),
        },
        _ => (m.hash, Seq::empty(), 0, 0),
    }
}

/// The artifacts of a successful batch, in order: exactly one per
/// ingested image record whose extension dispatches to a decoder, and
/// none otherwise.
pub open spec fn spec_artifact_list(added: Seq<MetadataV>, fs: Seq<FileIngestV>) -> Seq<
    (Seq<char>, Seq<u8>, i32, i32),
>
    decreases added.len(),
{
    if added.len() == 0 {
        Seq::empty()
    } else {
        let prefix = spec_artifact_list(added.drop_last(), fs);
        let m = added.last();
        if wants_artifact(m) {
            prefix.push(spec_artifact(m, fs[added.len() - 1].content->0))
        } else {
            prefix
        }
    }
}

/// The plain views of a returned artifact list: fingerprint, PNG bytes
/// and pixel size of each.
pub open spec fn artifact_views(v: Seq<(String, ThumbnailImage)>) -> Seq<
    (Seq<char>, Seq<u8>, i32, i32),
> {
    Seq::new(v.len(), |i: int| (v[i].0@, v[i].1.png@, v[i].1.width, v[i].1.height))
}

impl Library {
    /// Ingests a batch of files, strictly in order: classify,
    /// fingerprint, extract attributes, render the thumbnail for
    /// images, persist, and index the whole batch once at the end. Any
    /// per-file failure aborts the batch at that file with the failure's
    /// own error kind: records persisted for the earlier files of the
    /// same call stay in the store, but none of the batch reaches the
    /// index.
    pub fn add_files(&mut self, files: Vec<FileIngest>, now: i32) -> (r: Result<
        Vec<(String, ThumbnailImage)>,
        FocError,
    >)
        requires
            old(self).wf(),
        ensures
            final(self).wf(),
            final(self).store_view().len() >= old(self).store_view().len(),
            final(self).store_view().take(old(self).store_view().len() as int) == old(
                self,
            ).store_view(),
            ({
                let added = final(self).store_view().skip(old(self).store_view().len() as int);
                &&& added.len() <= files@.len()
                &&& (forall|k: int|
                    0 <= k < added.len() ==> ingested_record_ok(
                        #[trigger] added[k],
                        files_views(files@)[k],
                        now,
                    ))
                &&& (r is Ok ==> added.len() == files@.len() && final(self).index_view()
                    == spec_index_batch(old(self).index_view(), added))
                &&& (r matches Ok(v) ==> artifact_views(v@) == spec_artifact_list(
                    added,
                    files_views(files@),
                ))
                &&& (r is Err ==> final(self).index_view() == old(self).index_view())
                &&& (r is Err ==> added.len() < files@.len() && (match files_views(
                    files@,
                )[added.len() as int].content {
                    None => r->Err_0 is Io,
                    Some(b) => match crate::classify::spec_classification(
                        b,
                        files_views(files@)[added.len() as int].path,
                    ) {
                        None => r->Err_0 is Classification,
                        Some((ct, ext)) => if ct is Image
                            && crate::thumbnail::spec_thumb_gen_fails(ext, b) {
                            r->Err_0 is Thumbnail
                        } else {
                            r->Err_0 is Store && has_hash(
                                old(self).store_view() + added,
                                spec_fingerprint(b),
                            )
                        },
                    },
                }))
            }),
            (exists|k: int|
                0 <= k < files@.len() && (#[trigger] files_views(files@)[k]).content is None)
                ==> r is Err,
    {
        let ghost store0 = self.store_view();
        let ghost fv = files_views(files@);
        let mut batch: Vec<Metadata> = Vec::new();
        let mut artifacts: Vec<(String, ThumbnailImage)> = Vec::new();
        let mut i: usize = 0;
        proof {
            assert(store0 + records_views(batch@) =~= store0);
            assert(store0.take(store0.len() as int) =~= store0);
            assert(artifact_views(artifacts@) =~= spec_artifact_list(records_views(batch@), fv));
        }
        while i < files.len()
            invariant
                i <= files@.len(),
                fv == files_views(files@),
                self.wf(),
                self.index_view() == old(self).index_view(),
                old(self).wf(),
                store0 == old(self).store_view(),
                self.store_view() == store0 + records_views(batch@),
                batch@.len() == i,
                forall|k: int|
                    0 <= k < i ==> ingested_record_ok(
                        #[trigger] records_views(batch@)[k],
                        fv[k],
                        now,
                    ),
                forall|k: int| 0 <= k < i ==> (#[trigger] fv[k]).content is Some,
                artifact_views(artifacts@) == spec_artifact_list(records_views(batch@), fv),
            decreases files@.len() - i,
        {
            proof {
                assert(fv[i as int] == files@[i as int]@);
                assert(self.store_view().take(store0.len() as int) =~= store0);
                assert(self.store_view().skip(store0.len() as int) =~= records_views(batch@));
            }
            let bytes = match &files[i].content {
                Some(b) => b,
                None => {
                    proof {
                        assert(fv[i as int].content is None);
                    }
                    return Err(FocError::Io(String::from_str("File could not be read")));
                },
            };
            let ghost bv = bytes@;
            let sniffed = sniff(bytes);
            let content_type: ContentType;
            let extension: Option<String>;
            match sniffed {
                Some(kind) => {
                    content_type = match ContentType::from_kind(&kind) {
                        Ok(ct) => ct,
                        Err(e) => {
                            proof {
                                assert(crate::classify::spec_classification(
                                    bv,
                                    fv[i as int].path,
                                ) is None);
                            }
                            return Err(e);
                        },
                    };
                    extension = Some(kind.extension);
                },
                None => {
                    content_type = ContentType::Other;
                    extension = crate::directory::extension_from_path(files[i].path.as_str());
                },
            }
            let ghost ext_v: Option<Seq<char>> = match extension {
                Some(ref s) => Some(s@),
                None => None,
            };
            proof {
                assert(crate::classify::spec_classification(bv, fv[i as int].path) == Some(
                    (content_type, ext_v),
                ));
            }
            let file_hash = fingerprint_bytes(bytes);
            let file_name = crate::directory::file_stem(files[i].path.as_str());
            let attrs = extract_attributes(&content_type, bytes);
            // Thumbnails come before persistence: a file whose thumbnail
            // cannot be rendered leaves no record behind.
            let is_image = match content_type {
                ContentType::Image => true,
                _ => false,
            };
            let ghost pre_artifacts = artifacts@;
            let mut pushed_artifact = false;
            if is_image {
                match crate::thumbnail::generate_thumbnail(&extension, bytes) {
                    Ok(Some(img)) => {
                        artifacts.push((file_hash.clone(), img));
                        pushed_artifact = true;
                    },
                    Ok(None) => {},
                    Err(e) => {
                        proof {
                            assert(crate::thumbnail::spec_thumb_gen_fails(ext_v, bv));
                        }
                        return Err(e);
                    },
                }
            }
            let record = Metadata {
                hash: file_hash,
                name: file_name,
                path: files[i].path.clone(),
                content_type,
                status: Status::Valid,
                timestamp_created: now,
                timestamp_modified: now,
                extension,
                tags: None,
                notes: None,
                width: attrs.width,
                height: attrs.height,
                duration: attrs.duration,
            };
            proof {
                assert(ingested_record_ok(record@, fv[i as int], now));
            }
            let stored_copy = record.duplicate();
            let ghost pre_store = self.store_view();
            match self.store.insert_metadata(stored_copy) {
                Ok(()) => {},
                Err(e) => {
                    proof {
                        assert(self.store_view() == pre_store);
                        assert(self.store_view().take(store0.len() as int) =~= store0);
                        assert(self.store_view().skip(store0.len() as int) =~= records_views(
                            batch@,
                        ));
                        assert(has_hash(
                            store0 + records_views(batch@),
                            spec_fingerprint(bv),
                        ));
                        if content_type is Image {
                            assert(!crate::thumbnail::spec_thumb_gen_fails(ext_v, bv));
                        }
                    }
                    return Err(e);
                },
            }
            let ghost pre_batch = batch@;
            proof {
                assert(self.store_view() =~= store0 + records_views(batch@).push(record@));
            }
            batch.push(record);
            proof {
                assert(records_views(batch@) =~= records_views(pre_batch).push(batch@[i as int]@));
                assert(self.store_view() =~= store0 + records_views(batch@));
                assert forall|k: int| 0 <= k < i + 1 implies ingested_record_ok(
                    #[trigger] records_views(batch@)[k],
                    fv[k],
                    now,
                ) by {
                    if k < i {
                        assert(records_views(batch@)[k] == records_views(pre_batch)[k]);
                    } else {
                        assert(records_views(batch@)[k] == batch@[k]@);
                    }
                }
                // The artifact bookkeeping matches the specification's
                // one-artifact-per-rendered-image rule.
                let nb = records_views(batch@);
                assert(nb.drop_last() =~= records_views(pre_batch));
                assert(nb.last() == batch@[i as int]@);
                assert(fv[nb.len() - 1].content->0 == bv);
                if pushed_artifact {
                    assert(wants_artifact(nb.last()));
                    assert(artifact_views(artifacts@) =~= artifact_views(pre_artifacts).push(
                        spec_artifact(nb.last(), bv),
                    ));
                    assert(artifact_views(artifacts@) =~= spec_artifact_list(nb, fv));
                } else {
                    assert(!wants_artifact(nb.last()));
                    assert(artifact_views(artifacts@) =~= spec_artifact_list(nb, fv));
                }
            }
            i = i + 1;
        }
        match self.index.index_metadata(&batch) {
            Ok(()) => {},
            Err(e) => {
                proof {
                    assert(false);
                }
                return Err(e);
            },
        }
        proof {
            assert(self.store_view().take(store0.len() as int) =~= store0);
            assert(self.store_view().skip(store0.len() as int) =~= records_views(batch@));
        }
        Ok(artifacts)
    }
}

/// What link ingestion pins down about the record built from an
/// extension request: the fingerprint is the digest of the URL text,
/// the name and location come from the request, the content type is
/// `Link`, and the dimensions are the rendered thumbnail's.
pub open spec fn link_record_ok(m: MetadataV, req: crate::web_extension::RequestV, now: i32) -> bool {
    &&& m.hash == spec_fingerprint(vstd::utf8::encode_utf8(req.url))
    &&& m.name == req.name
    &&& m.path == req.url
    &&& m.content_type is Link
    &&& m.status is Valid
    &&& m.timestamp_created == now
    &&& m.timestamp_modified == now
    &&& m.extension is None
    &&& m.tags is None
    &&& m.notes is None
    &&& m.width is Some
    &&& m.height is Some
    &&& m.duration is None
}

impl Library {
    /// Ingests a link sent by the browser extension: the identity key is
    /// the digest of the URL, the preview comes from the request's
    /// inline base64 PNG payload, and the record is persisted and
    /// indexed at once. A payload without the `data:image/png;base64,`
    /// prefix, or one that is not valid base64, fails the call and
    /// changes nothing.
    pub fn add_url_from_extension(&mut self, request: &crate::web_extension::Request, now: i32) -> (r:
        Result<ThumbnailImage, FocError>)
        requires
            old(self).wf(),
        ensures
            final(self).wf(),
            r is Err ==> final(self).store_view() == old(self).store_view(),
            r is Err ==> final(self).index_view() == old(self).index_view(),
            ({
                let stripped = crate::thumbnail::spec_strip_data_png_prefix(request@.image);
                let fp = spec_fingerprint(vstd::utf8::encode_utf8(request@.url));
                &&& (r is Ok <==> (match stripped {
                    Some(b64) => match crate::thumbnail::base64_decoded(b64) {
                        Some(png) => !crate::thumbnail::spec_render_fails(
                            png,
                            crate::thumbnail::ThumbFormat::Png,
                        ) && !has_hash(old(self).store_view(), fp),
                        None => false,
                    },
                    None => false,
                }))
                &&& (stripped is None ==> (r is Err && r->Err_0 is Extension))
                &&& ((stripped matches Some(b64) && crate::thumbnail::base64_decoded(b64) is None)
                    ==> (r is Err && r->Err_0 is Extension))
                &&& ((stripped matches Some(b64) && crate::thumbnail::base64_decoded(b64) matches
                    Some(png) && crate::thumbnail::spec_render_fails(
                    png,
                    crate::thumbnail::ThumbFormat::Png,
                )) ==> (r is Err && r->Err_0 is Thumbnail))
                &&& ((stripped matches Some(b64) && crate::thumbnail::base64_decoded(b64) matches
                    Some(png) && !crate::thumbnail::spec_render_fails(
                    png,
                    crate::thumbnail::ThumbFormat::Png,
                ) && has_hash(old(self).store_view(), fp)) ==> (r is Err && r->Err_0 is Store))
                &&& (r matches Ok(img) ==> (stripped matches Some(b64)
                    && crate::thumbnail::base64_decoded(b64) matches Some(png)
                    && crate::thumbnail::large_thumb_of(
                    png,
                    crate::thumbnail::ThumbFormat::Png,
                ) matches Some(t) && img.png@ == t.0 && img.width == t.1 as i32 && img.height
                    == t.2 as i32))
            }),
            r matches Ok(img) ==> ({
                let added = final(self).store_view().last();
                &&& final(self).store_view().len() == old(self).store_view().len() + 1
                &&& final(self).store_view().drop_last() == old(self).store_view()
                &&& link_record_ok(added, request@, now)
                &&& added.width == Some(img.width)
                &&& added.height == Some(img.height)
                &&& final(self).index_view() == spec_index_batch(
                    old(self).index_view(),
                    seq![added],
                )
            }),
    {
        let url_hash = {
            let url_bytes = request.url.as_str().as_bytes_vec();
            fingerprint_bytes(&url_bytes)
        };
        let b64 = match crate::thumbnail::strip_data_png_prefix(request.image.as_str()) {
            Some(b64) => b64,
            None => {
                return Err(FocError::Extension(String::from_str("Couldn't strip prefix!")));
            },
        };
        let png_in = match crate::thumbnail::decode_base64(b64) {
            Some(v) => v,
            None => {
                return Err(
                    FocError::Extension(String::from_str("Inline payload is not valid base64")),
                );
            },
        };
        let img = match crate::thumbnail::render_thumbnail(
            &png_in,
            crate::thumbnail::ThumbFormat::Png,
        ) {
            Ok(img) => img,
            Err(e) => {
                return Err(e);
            },
        };
        let record = Metadata {
            hash: url_hash,
            name: request.name.clone(),
            path: request.url.clone(),
            content_type: ContentType::Link,
            status: Status::Valid,
            timestamp_created: now,
            timestamp_modified: now,
            extension: None,
            tags: None,
            notes: None,
            width: Some(img.width),
            height: Some(img.height),
            duration: None,
        };
        let ghost rv = record@;
        let stored_copy = record.duplicate();
        match self.store.insert_metadata(stored_copy) {
            Ok(()) => {},
            Err(e) => {
                return Err(e);
            },
        }
        let mut batch: Vec<Metadata> = Vec::new();
        batch.push(record);
        proof {
            assert(records_views(batch@) =~= seq![rv]);
        }
        match self.index.index_metadata(&batch) {
            Ok(()) => {},
            Err(e) => {
                proof {
                    assert(false);
                }
                return Err(e);
            },
        }
        proof {
            assert(self.store_view().drop_last() =~= old(self).store_view());
        }
        Ok(img)
    }
}

} // verus!
