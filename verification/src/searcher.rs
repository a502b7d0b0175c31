//! The search index engine: an inverted view over the records' name,
//! tags and notes, and the progressive fuzzy search over it.
//!
//! A search runs three passes of rising edit-distance tolerance; each
//! pass contributes only documents no earlier pass produced, so exact
//! matches rank ahead of fuzzier ones, and the result is capped and
//! deduplicated by fingerprint.

use vstd::prelude::*;
use crate::edit_distance::spec_word_match;
use crate::edit_distance::lemma_word_match_monotonic;
use crate::edit_distance::word_fuzzy_match;
use crate::foc_error::FocError;
use crate::metadata::Metadata;
use crate::metadata::MetadataV;
use crate::metadata::records_views;
use crate::metadata::views_of_strings;
use crate::text::clone_opt_string;
use crate::text::clone_strings;
use crate::text::copy_chars;
use crate::text::spec_query_words;
use crate::text::spec_tokens;
use crate::text::split_query;
use crate::text::str_eq;
use crate::text::tokenize;
use crate::text::view2;

verus! {

/// The disposable search representation of one record: the stored
/// fingerprint and the three searchable text fields.
pub struct IndexDoc {
    pub hash: String,
    pub name: String,
    pub tags: Vec<String>,
    pub notes: Option<String>,
}

/// The mathematical shape of an index document.
pub ghost struct DocV {
    pub hash: Seq<char>,
    pub name: Seq<char>,
    pub tags: Seq<Seq<char>>,
    pub notes: Option<Seq<char>>,
}

impl View for IndexDoc {
    type V = DocV;

    open spec fn view(&self) -> DocV {
        DocV {
            hash: self.hash@,
            name: self.name@,
            tags: views_of_strings(self.tags@),
            notes: match self.notes {
                Some(ref n) => Some(n@),
                None => None,
            },
        }
    }
}

/// The views of a sequence of index documents.
pub open spec fn docs_views(ds: Seq<IndexDoc>) -> Seq<DocV> {
    Seq::new(ds.len(), |i: int| ds[i]@)
}

/// The tokens contributed by a document's tags, in tag order.
pub open spec fn tags_tokens(tags: Seq<Seq<char>>) -> Seq<Seq<char>>
    decreases tags.len(),
{
    if tags.len() == 0 {
        Seq::empty()
    } else {
        tags_tokens(tags.drop_last()) + spec_tokens(tags.last())
    }
}

/// Every token of a document: its name's, then its tags', then its
/// notes' tokens.
pub open spec fn doc_tokens(d: DocV) -> Seq<Seq<char>> {
    spec_tokens(d.name) + tags_tokens(d.tags) + (match d.notes {
        Some(n) => spec_tokens(n),
        None => Seq::empty(),
    })
}

/// A document matches a word list at a tolerance when one of the words
/// fuzzily matches one of its tokens.
pub open spec fn spec_doc_matches(d: DocV, words: Seq<Seq<char>>, tol: nat) -> bool {
    exists|wi: int, ti: int|
        0 <= wi < words.len() && 0 <= ti < doc_tokens(d).len() && spec_word_match(
            words[wi],
            doc_tokens(d)[ti],
            tol,
        )
}

/// A document matching at a strict tolerance matches at every looser one.
pub proof fn lemma_doc_match_monotonic(d: DocV, words: Seq<Seq<char>>, t1: nat, t2: nat)
    requires
        t1 <= t2,
        spec_doc_matches(d, words, t1),
    ensures
        spec_doc_matches(d, words, t2),
{
    let (wi, ti) = choose|wi: int, ti: int|
        0 <= wi < words.len() && 0 <= ti < doc_tokens(d).len() && spec_word_match(
            words[wi],
            doc_tokens(d)[ti],
            t1,
        );
    lemma_word_match_monotonic(words[wi], doc_tokens(d)[ti], t1, t2);
}

fn push_all(acc: &mut Vec<Vec<char>>, more: &Vec<Vec<char>>)
    ensures
        view2(final(acc)@) == view2(old(acc)@) + view2(more@),
{
    let mut j: usize = 0;
    while j < more.len()
        invariant
            j <= more@.len(),
            view2(acc@) == view2(old(acc)@) + view2(more@).take(j as int),
        decreases more@.len() - j,
    {
        let c = copy_chars(&more[j]);
        let ghost cv = c@;
        let ghost pre = acc@;
        acc.push(c);
        proof {
            assert(cv == view2(more@)[j as int]);
            assert(view2(acc@) =~= view2(pre).push(cv));
            assert(view2(more@).take(j + 1) =~= view2(more@).take(j as int).push(
                view2(more@)[j as int],
            ));
            assert(view2(acc@) =~= view2(old(acc)@) + view2(more@).take(j + 1));
        }
        j = j + 1;
    }
    proof {
        assert(view2(more@).take(more@.len() as int) =~= view2(more@));
    }
}

/// All tokens of one document, computed.
fn doc_tokens_exec(doc: &IndexDoc) -> (toks: Vec<Vec<char>>)
    ensures
        view2(toks@) == doc_tokens(doc@),
{
    let mut toks = tokenize(doc.name.as_str());
    let mut i: usize = 0;
    proof {
        let tv = views_of_strings(doc.tags@);
        assert(tv.take(0) =~= Seq::<Seq<char>>::empty());
        assert(tags_tokens(tv.take(0)) == Seq::<Seq<char>>::empty());
        assert(view2(toks@) =~= spec_tokens(doc.name@) + tags_tokens(tv.take(0)));
    }
    while i < doc.tags.len()
        invariant
            i <= doc.tags@.len(),
            view2(toks@) == spec_tokens(doc.name@) + tags_tokens(
                views_of_strings(doc.tags@).take(i as int),
            ),
        decreases doc.tags@.len() - i,
    {
        let tt = tokenize(doc.tags[i].as_str());
        push_all(&mut toks, &tt);
        proof {
            let tv = views_of_strings(doc.tags@);
            assert(tv.take(i + 1).drop_last() =~= tv.take(i as int));
            assert(tv.take(i + 1).last() == tv[i as int]);
            assert(tags_tokens(tv.take(i + 1)) == tags_tokens(tv.take(i as int)) + spec_tokens(
                tv[i as int],
            ));
            assert(view2(toks@) =~= spec_tokens(doc.name@) + tags_tokens(tv.take(i + 1)));
        }
        i = i + 1;
    }
    proof {
        let tv = views_of_strings(doc.tags@);
        assert(tv.take(tv.len() as int) =~= tv);
    }
    match &doc.notes {
        Some(n) => {
            let nt = tokenize(n.as_str());
            push_all(&mut toks, &nt);
        },
        None => {
            proof {
                assert(view2(toks@) + Seq::<Seq<char>>::empty() =~= view2(toks@));
            }
        },
    }
    proof {
        assert(view2(toks@) =~= doc_tokens(doc@));
    }
    toks
}

/// Whether a document matches any of the query words at the given
/// tolerance.
fn doc_match(doc: &IndexDoc, words: &Vec<Vec<char>>, tol: u8) -> (b: bool)
    requires
        tol <= 2,
    ensures
        b == spec_doc_matches(doc@, view2(words@), tol as nat),
{
    let toks = doc_tokens_exec(doc);
    let nw = words.len();
    let nt = toks.len();
    let mut wi: usize = 0;
    while wi < nw
        invariant
            wi <= nw == words@.len(),
            nt == toks@.len(),
            tol <= 2,
            view2(toks@) == doc_tokens(doc@),
            forall|a: int, b: int|
                0 <= a < wi && 0 <= b < nt ==> !spec_word_match(
                    view2(words@)[a],
                    doc_tokens(doc@)[b],
                    tol as nat,
                ),
        decreases nw - wi,
    {
        let mut ti: usize = 0;
        while ti < nt
            invariant
                wi < nw == words@.len(),
                ti <= nt == toks@.len(),
                tol <= 2,
                view2(toks@) == doc_tokens(doc@),
                forall|b: int|
                    0 <= b < ti ==> !spec_word_match(
                        view2(words@)[wi as int],
                        doc_tokens(doc@)[b],
                        tol as nat,
                    ),
            decreases nt - ti,
        {
            if word_fuzzy_match(&words[wi], &toks[ti], tol) {
                proof {
                    assert(words@[wi as int]@ == view2(words@)[wi as int]);
                    assert(toks@[ti as int]@ == doc_tokens(doc@)[ti as int]);
                    assert(spec_doc_matches(doc@, view2(words@), tol as nat));
                }
                return true;
            }
            proof {
                assert(words@[wi as int]@ == view2(words@)[wi as int]);
                assert(toks@[ti as int]@ == doc_tokens(doc@)[ti as int]);
            }
            ti = ti + 1;
        }
        wi = wi + 1;
    }
    proof {
        assert(!spec_doc_matches(doc@, view2(words@), tol as nat));
    }
    false
}

/// The documents of `ds` whose fingerprint differs from `h`, in order.
pub open spec fn remove_hash(ds: Seq<DocV>, h: Seq<char>) -> Seq<DocV>
    decreases ds.len(),
{
    if ds.len() == 0 {
        Seq::empty()
    } else {
        remove_hash(ds.drop_last(), h) + (if ds.last().hash == h {
            Seq::empty()
        } else {
            seq![ds.last()]
        })
    }
}

/// The documents of `ds` whose fingerprint is in none of `hs`, in order.
pub open spec fn remove_hashes(ds: Seq<DocV>, hs: Seq<Seq<char>>) -> Seq<DocV>
    decreases ds.len(),
{
    if ds.len() == 0 {
        Seq::empty()
    } else {
        remove_hashes(ds.drop_last(), hs) + (if hs.contains(ds.last().hash) {
            Seq::empty()
        } else {
            seq![ds.last()]
        })
    }
}

/// Replacing a document: any document with the same fingerprint leaves,
/// and the new one is appended.
pub open spec fn spec_upsert(ds: Seq<DocV>, d: DocV) -> Seq<DocV> {
    remove_hash(ds, d.hash).push(d)
}

/// The index document a record contributes.
pub open spec fn doc_of(m: MetadataV) -> DocV {
    DocV {
        hash: m.hash,
        name: m.name,
        tags: match m.tags {
            Some(t) => t,
            None => Seq::empty(),
        },
        notes: m.notes,
    }
}

/// Indexing a batch replaces each record's document, in batch order.
pub open spec fn spec_index_batch(ds: Seq<DocV>, recs: Seq<MetadataV>) -> Seq<DocV>
    decreases recs.len(),
{
    if recs.len() == 0 {
        ds
    } else {
        spec_index_batch(spec_upsert(ds, doc_of(recs[0])), recs.drop_first())
    }
}

/// The documents matching the query words at a tolerance, in index order.
pub open spec fn matching(ds: Seq<DocV>, words: Seq<Seq<char>>, tol: nat) -> Seq<DocV>
    decreases ds.len(),
{
    if ds.len() == 0 {
        Seq::empty()
    } else {
        matching(ds.drop_last(), words, tol) + (if spec_doc_matches(ds.last(), words, tol) {
            seq![ds.last()]
        } else {
            Seq::empty()
        })
    }
}

/// The fingerprints of a document list, in order.
pub open spec fn hashes_of(ds: Seq<DocV>) -> Seq<Seq<char>> {
    Seq::new(ds.len(), |i: int| ds[i].hash)
}

/// Folds one pass's hits into the accumulated result: a hit enters only
/// if the cap is not reached and no earlier pass already produced it.
pub open spec fn accumulate(acc: Seq<Seq<char>>, hs: Seq<Seq<char>>, limit: nat) -> Seq<Seq<char>>
    decreases hs.len(),
{
    if hs.len() == 0 {
        acc
    } else {
        let acc2 = if acc.len() < limit && !acc.contains(hs[0]) {
            acc.push(hs[0])
        } else {
            acc
        };
        accumulate(acc2, hs.drop_first(), limit)
    }
}

/// The fingerprints a search returns: three passes of rising tolerance,
/// each deduplicated against all earlier hits and capped overall.
pub open spec fn spec_search(ds: Seq<DocV>, words: Seq<Seq<char>>, limit: nat) -> Seq<Seq<char>> {
    let p0 = accumulate(Seq::empty(), hashes_of(matching(ds, words, 0)), limit);
    let p1 = accumulate(p0, hashes_of(matching(ds, words, 1)), limit);
    accumulate(p1, hashes_of(matching(ds, words, 2)), limit)
}

/// No two documents share a fingerprint.
pub open spec fn unique_hashes(ds: Seq<DocV>) -> bool {
    forall|i: int, j: int| 0 <= i < j < ds.len() ==> ds[i].hash != ds[j].hash
}

/// What leaves and what stays under [`remove_hash`]: survivors keep
/// their fingerprint away from `h` and come from `ds`.
pub proof fn lemma_remove_hash_elems(ds: Seq<DocV>, h: Seq<char>)
    ensures
        forall|k: int|
            0 <= k < remove_hash(ds, h).len() ==> (#[trigger] remove_hash(ds, h)[k]).hash != h
                && ds.contains(remove_hash(ds, h)[k]),
    decreases ds.len(),
{
    if ds.len() > 0 {
        lemma_remove_hash_elems(ds.drop_last(), h);
        let r = remove_hash(ds, h);
        let r0 = remove_hash(ds.drop_last(), h);
        assert forall|k: int| 0 <= k < r.len() implies (#[trigger] r[k]).hash != h && ds.contains(
            r[k],
        ) by {
            if k < r0.len() {
                assert(r[k] == r0[k]);
                let j = choose|j: int| 0 <= j < ds.drop_last().len() && ds.drop_last()[j] == r0[k];
                assert(ds[j] == r0[k]);
            } else {
                assert(r[k] == ds.last());
            }
        }
    }
}

/// [`remove_hash`] keeps fingerprints unique.
pub proof fn lemma_remove_hash_unique(ds: Seq<DocV>, h: Seq<char>)
    requires
        unique_hashes(ds),
    ensures
        unique_hashes(remove_hash(ds, h)),
    decreases ds.len(),
{
    if ds.len() > 0 {
        let prefix = ds.drop_last();
        assert(unique_hashes(prefix));
        lemma_remove_hash_unique(prefix, h);
        lemma_remove_hash_elems(prefix, h);
        let r = remove_hash(ds, h);
        let r0 = remove_hash(prefix, h);
        if ds.last().hash != h {
            assert forall|i: int, j: int| 0 <= i < j < r.len() implies r[i].hash != r[j].hash by {
                if j < r0.len() {
                } else {
                    assert(r[j] == ds.last());
                    assert(r[i] == r0[i]);
                    let k = choose|k: int| 0 <= k < prefix.len() && prefix[k] == r0[i];
                    assert(ds[k] == r0[i]);
                    assert(ds[k].hash != ds[ds.len() - 1].hash);
                }
            }
        }
    }
}

/// What leaves and what stays under [`remove_hashes`].
pub proof fn lemma_remove_hashes_elems(ds: Seq<DocV>, hs: Seq<Seq<char>>)
    ensures
        forall|k: int|
            0 <= k < remove_hashes(ds, hs).len() ==> !hs.contains(
                (#[trigger] remove_hashes(ds, hs)[k]).hash,
            ) && ds.contains(remove_hashes(ds, hs)[k]),
    decreases ds.len(),
{
    if ds.len() > 0 {
        lemma_remove_hashes_elems(ds.drop_last(), hs);
        let r = remove_hashes(ds, hs);
        let r0 = remove_hashes(ds.drop_last(), hs);
        assert forall|k: int| 0 <= k < r.len() implies !hs.contains((#[trigger] r[k]).hash)
            && ds.contains(r[k]) by {
            if k < r0.len() {
                assert(r[k] == r0[k]);
                let j = choose|j: int| 0 <= j < ds.drop_last().len() && ds.drop_last()[j] == r0[k];
                assert(ds[j] == r0[k]);
            } else {
                assert(r[k] == ds.last());
            }
        }
    }
}

/// [`remove_hashes`] keeps fingerprints unique.
pub proof fn lemma_remove_hashes_unique(ds: Seq<DocV>, hs: Seq<Seq<char>>)
    requires
        unique_hashes(ds),
    ensures
        unique_hashes(remove_hashes(ds, hs)),
    decreases ds.len(),
{
    if ds.len() > 0 {
        let prefix = ds.drop_last();
        assert(unique_hashes(prefix));
        lemma_remove_hashes_unique(prefix, hs);
        lemma_remove_hashes_elems(prefix, hs);
        let r = remove_hashes(ds, hs);
        let r0 = remove_hashes(prefix, hs);
        if !hs.contains(ds.last().hash) {
            assert forall|i: int, j: int| 0 <= i < j < r.len() implies r[i].hash != r[j].hash by {
                if j < r0.len() {
                } else {
                    assert(r[j] == ds.last());
                    assert(r[i] == r0[i]);
                    let k = choose|k: int| 0 <= k < prefix.len() && prefix[k] == r0[i];
                    assert(ds[k] == r0[i]);
                    assert(ds[k].hash != ds[ds.len() - 1].hash);
                }
            }
        }
    }
}

/// Replacing a document keeps fingerprints unique.
pub proof fn lemma_upsert_unique(ds: Seq<DocV>, d: DocV)
    requires
        unique_hashes(ds),
    ensures
        unique_hashes(spec_upsert(ds, d)),
{
    lemma_remove_hash_unique(ds, d.hash);
    lemma_remove_hash_elems(ds, d.hash);
    let r = remove_hash(ds, d.hash);
    let u = spec_upsert(ds, d);
    assert forall|i: int, j: int| 0 <= i < j < u.len() implies u[i].hash != u[j].hash by {
        if j < r.len() {
        } else {
            assert(u[j] == d);
            assert(u[i] == r[i]);
        }
    }
}

impl IndexDoc {
    /// A fresh document with the same view.
    pub fn duplicate(&self) -> (r: IndexDoc)
        ensures
            r@ == self@,
    {
        let r = IndexDoc {
            hash: self.hash.clone(),
            name: self.name.clone(),
            tags: clone_strings(&self.tags),
            notes: clone_opt_string(&self.notes),
        };
        proof {
            assert(views_of_strings(r.tags@) =~= views_of_strings(self.tags@));
            assert(r@ == self@);
        }
        r
    }
}

/// The index document derived from a record.
pub fn make_doc(m: &Metadata) -> (d: IndexDoc)
    ensures
        d@ == doc_of(m@),
{
    let d = IndexDoc {
        hash: m.hash.clone(),
        name: m.name.clone(),
        tags: match &m.tags {
            Some(v) => clone_strings(v),
            None => Vec::new(),
        },
        notes: clone_opt_string(&m.notes),
    };
    proof {
        match m.tags {
            Some(ref v) => {
                assert(views_of_strings(d.tags@) =~= views_of_strings(v@));
            },
            None => {
                assert(views_of_strings(d.tags@) =~= Seq::<Seq<char>>::empty());
            },
        }
        assert(d@ == doc_of(m@));
    }
    d
}

/// Whether some string in the vector has these characters.
pub fn contains_string(v: &Vec<String>, s: &str) -> (b: bool)
    ensures
        b == views_of_strings(v@).contains(s@),
{
    let mut i: usize = 0;
    while i < v.len()
        invariant
            i <= v@.len(),
            forall|k: int| 0 <= k < i ==> views_of_strings(v@)[k] != s@,
        decreases v@.len() - i,
    {
        if str_eq(v[i].as_str(), s) {
            proof {
                assert(views_of_strings(v@)[i as int] == s@);
            }
            return true;
        }
        i = i + 1;
    }
    proof {
        if views_of_strings(v@).contains(s@) {
            let k = choose|k: int|
                0 <= k < views_of_strings(v@).len() && views_of_strings(v@)[k] == s@;
            assert(false);
        }
    }
    false
}

/// The persistent inverted index: at most one live document per
/// fingerprint, mutated only through batch-shaped operations whose
/// effect is visible to the very next search.
pub struct SearchIndex {
    docs: Vec<IndexDoc>,
}

impl SearchIndex {
    /// The documents the index holds, in insertion order.
    pub closed spec fn docs_view(&self) -> Seq<DocV> {
        docs_views(self.docs@)
    }

    /// The index invariant: fingerprints are unique.
    pub open spec fn wf(&self) -> bool {
        unique_hashes(self.docs_view())
    }

    /// An empty index.
    pub fn new() -> (s: SearchIndex)
        ensures
            s.docs_view() == Seq::<DocV>::empty(),
            s.wf(),
    {
        let s = SearchIndex { docs: Vec::new() };
        proof {
            assert(s.docs_view() =~= Seq::<DocV>::empty());
        }
        s
    }
}

fn upsert_in(docs: &mut Vec<IndexDoc>, d: IndexDoc)
    ensures
        docs_views(final(docs)@) == spec_upsert(docs_views(old(docs)@), d@),
{
    let ghost dv0 = docs_views(docs@);
    let mut kept: Vec<IndexDoc> = Vec::new();
    let mut i: usize = 0;
    proof {
        assert(dv0.take(0) =~= Seq::<DocV>::empty());
        assert(docs_views(kept@) =~= remove_hash(dv0.take(0), d@.hash));
    }
    while i < docs.len()
        invariant
            i <= docs@.len(),
            dv0 == docs_views(docs@),
            docs_views(kept@) == remove_hash(dv0.take(i as int), d@.hash),
        decreases docs@.len() - i,
    {
        proof {
            assert(dv0.take(i + 1).drop_last() =~= dv0.take(i as int));
            assert(dv0.take(i + 1).last() == dv0[i as int]);
        }
        if !str_eq(docs[i].hash.as_str(), d.hash.as_str()) {
            let c = docs[i].duplicate();
            let ghost pre = kept@;
            kept.push(c);
            proof {
                assert(docs_views(kept@) =~= docs_views(pre).push(dv0[i as int]));
                assert(docs_views(kept@) =~= remove_hash(dv0.take(i + 1), d@.hash));
            }
        } else {
            proof {
                assert(docs_views(kept@) + Seq::<DocV>::empty() =~= docs_views(kept@));
                assert(docs_views(kept@) =~= remove_hash(dv0.take(i + 1), d@.hash));
            }
        }
        i = i + 1;
    }
    proof {
        assert(dv0.take(dv0.len() as int) =~= dv0);
    }
    let ghost pre = kept@;
    kept.push(d);
    proof {
        assert(docs_views(kept@) =~= docs_views(pre).push(d@));
    }
    *docs = kept;
}

impl SearchIndex {
    /// Builds one document per record, adds them all, and commits once:
    /// after the call every record of the batch is searchable, earlier
    /// documents under the same fingerprints are gone, and nothing else
    /// changed.
    pub fn index_metadata(&mut self, metadata: &Vec<Metadata>) -> (r: Result<(), FocError>)
        requires
            old(self).wf(),
        ensures
            r is Ok,
            final(self).wf(),
            final(self).docs_view() == spec_index_batch(
                old(self).docs_view(),
                records_views(metadata@),
            ),
    {
        let ghost ds0 = self.docs_view();
        let ghost rv = records_views(metadata@);
        let mut i: usize = 0;
        proof {
            assert(rv.skip(0) =~= rv);
        }
        while i < metadata.len()
            invariant
                i <= metadata@.len(),
                rv == records_views(metadata@),
                self.wf(),
                spec_index_batch(self.docs_view(), rv.skip(i as int)) == spec_index_batch(ds0, rv),
            decreases metadata@.len() - i,
        {
            let d = make_doc(&metadata[i]);
            proof {
                let tail = rv.skip(i as int);
                assert(tail[0] == rv[i as int]);
                assert(tail.drop_first() =~= rv.skip(i + 1));
                lemma_upsert_unique(self.docs_view(), d@);
            }
            upsert_in(&mut self.docs, d);
            i = i + 1;
        }
        proof {
            assert(rv.skip(rv.len() as int) =~= Seq::<MetadataV>::empty());
        }
        Ok(())
    }

    /// Deletes every document whose stored fingerprint exactly matches
    /// one of the given ids, and commits: none of them is searchable
    /// afterwards, and nothing else changed.
    pub fn delete_metadata(&mut self, hashes: &Vec<String>) -> (r: Result<(), FocError>)
        requires
            old(self).wf(),
        ensures
            r is Ok,
            final(self).wf(),
            final(self).docs_view() == remove_hashes(
                old(self).docs_view(),
                views_of_strings(hashes@),
            ),
    {
        let ghost dv0 = self.docs_view();
        let ghost hs = views_of_strings(hashes@);
        let mut kept: Vec<IndexDoc> = Vec::new();
        let mut i: usize = 0;
        proof {
            assert(dv0.take(0) =~= Seq::<DocV>::empty());
            assert(docs_views(kept@) =~= remove_hashes(dv0.take(0), hs));
        }
        while i < self.docs.len()
            invariant
                i <= self.docs@.len(),
                dv0 == docs_views(self.docs@),
                hs == views_of_strings(hashes@),
                docs_views(kept@) == remove_hashes(dv0.take(i as int), hs),
            decreases self.docs@.len() - i,
        {
            proof {
                assert(dv0.take(i + 1).drop_last() =~= dv0.take(i as int));
                assert(dv0.take(i + 1).last() == dv0[i as int]);
            }
            if !contains_string(hashes, self.docs[i].hash.as_str()) {
                let c = self.docs[i].duplicate();
                let ghost pre = kept@;
                kept.push(c);
                proof {
                    assert(docs_views(kept@) =~= docs_views(pre).push(dv0[i as int]));
                    assert(docs_views(kept@) =~= remove_hashes(dv0.take(i + 1), hs));
                }
            } else {
                proof {
                    assert(docs_views(kept@) + Seq::<DocV>::empty() =~= docs_views(kept@));
                    assert(docs_views(kept@) =~= remove_hashes(dv0.take(i + 1), hs));
                }
            }
            i = i + 1;
        }
        proof {
            assert(dv0.take(dv0.len() as int) =~= dv0);
            lemma_remove_hashes_unique(dv0, hs);
        }
        self.docs = kept;
        Ok(())
    }

    /// Replaces the one document under the record's fingerprint inside a
    /// single commit: a search never observes a half-updated document.
    pub fn update_metadata(&mut self, metadata: &Metadata) -> (r: Result<(), FocError>)
        requires
            old(self).wf(),
        ensures
            r is Ok,
            final(self).wf(),
            final(self).docs_view() == spec_upsert(old(self).docs_view(), doc_of(metadata@)),
    {
        let d = make_doc(metadata);
        proof {
            lemma_upsert_unique(self.docs_view(), d@);
        }
        upsert_in(&mut self.docs, d);
        Ok(())
    }
}

/// Appending one hit to a pass is one more fold step.
proof fn lemma_accumulate_snoc(acc: Seq<Seq<char>>, hs: Seq<Seq<char>>, h: Seq<char>, limit: nat)
    ensures
        accumulate(acc, hs.push(h), limit) == ({
            let base = accumulate(acc, hs, limit);
            if base.len() < limit && !base.contains(h) {
                base.push(h)
            } else {
                base
            }
        }),
    decreases hs.len(),
{
    let p = hs.push(h);
    let acc2p = if acc.len() < limit && !acc.contains(p[0]) {
        acc.push(p[0])
    } else {
        acc
    };
    assert(p.len() > 0);
    assert(accumulate(acc, p, limit) == accumulate(acc2p, p.drop_first(), limit));
    if hs.len() == 0 {
        assert(p.drop_first() =~= Seq::<Seq<char>>::empty());
        assert(p[0] == h);
        assert(accumulate(acc2p, p.drop_first(), limit) == acc2p);
        assert(accumulate(acc, hs, limit) == acc);
    } else {
        let acc2 = if acc.len() < limit && !acc.contains(hs[0]) {
            acc.push(hs[0])
        } else {
            acc
        };
        assert(p[0] == hs[0]);
        assert(acc2p == acc2);
        assert(p.drop_first() =~= hs.drop_first().push(h));
        lemma_accumulate_snoc(acc2, hs.drop_first(), h, limit);
        assert(accumulate(acc, hs, limit) == accumulate(acc2, hs.drop_first(), limit));
    }
}

impl SearchIndex {
    fn search_pass(&self, words: &Vec<Vec<char>>, tol: u8, limit: usize, out: &mut Vec<String>)
        requires
            tol <= 2,
        ensures
            views_of_strings(final(out)@) == accumulate(
                views_of_strings(old(out)@),
                hashes_of(matching(self.docs_view(), view2(words@), tol as nat)),
                limit as nat,
            ),
    {
        let ghost dv = self.docs_view();
        let ghost w = view2(words@);
        let ghost start = views_of_strings(old(out)@);
        let mut i: usize = 0;
        proof {
            assert(dv.take(0) =~= Seq::<DocV>::empty());
            assert(hashes_of(matching(dv.take(0), w, tol as nat)) =~= Seq::<Seq<char>>::empty());
        }
        while i < self.docs.len()
            invariant
                i <= self.docs@.len(),
                tol <= 2,
                dv == docs_views(self.docs@),
                w == view2(words@),
                views_of_strings(out@) == accumulate(
                    start,
                    hashes_of(matching(dv.take(i as int), w, tol as nat)),
                    limit as nat,
                ),
            decreases self.docs@.len() - i,
        {
            let ghost pre_hs = hashes_of(matching(dv.take(i as int), w, tol as nat));
            proof {
                assert(dv.take(i + 1).drop_last() =~= dv.take(i as int));
                assert(dv.take(i + 1).last() == dv[i as int]);
            }
            if doc_match(&self.docs[i], words, tol) {
                proof {
                    assert(matching(dv.take(i + 1), w, tol as nat) =~= matching(
                        dv.take(i as int),
                        w,
                        tol as nat,
                    ).push(dv[i as int]));
                    assert(hashes_of(matching(dv.take(i + 1), w, tol as nat)) =~= pre_hs.push(
                        dv[i as int].hash,
                    ));
                    lemma_accumulate_snoc(start, pre_hs, dv[i as int].hash, limit as nat);
                }
                if out.len() < limit && !contains_string(out, self.docs[i].hash.as_str()) {
                    let h = self.docs[i].hash.clone();
                    let ghost pre = out@;
                    out.push(h);
                    proof {
                        assert(views_of_strings(out@) =~= views_of_strings(pre).push(
                            dv[i as int].hash,
                        ));
                    }
                }
            } else {
                proof {
                    assert(matching(dv.take(i + 1), w, tol as nat) =~= matching(
                        dv.take(i as int),
                        w,
                        tol as nat,
                    ));
                }
            }
            i = i + 1;
        }
        proof {
            assert(dv.take(dv.len() as int) =~= dv);
        }
    }

    /// Searches the index: three passes of edit-distance tolerance 0, 1
    /// and 2 over the query's lowercased whitespace-separated words,
    /// accumulated in pass order, deduplicated by fingerprint, and capped
    /// at `limit` hits in all.
    pub fn search(&self, query: &str, limit: usize) -> (out: Vec<String>)
        ensures
            views_of_strings(out@) == spec_search(
                self.docs_view(),
                spec_query_words(query@),
                limit as nat,
            ),
    {
        let words = split_query(query);
        let mut out: Vec<String> = Vec::new();
        proof {
            assert(views_of_strings(out@) =~= Seq::<Seq<char>>::empty());
        }
        self.search_pass(&words, 0, limit, &mut out);
        self.search_pass(&words, 1, limit, &mut out);
        self.search_pass(&words, 2, limit, &mut out);
        out
    }
}

/// No two entries of a result list are the same fingerprint.
pub open spec fn distinct_hashes(hs: Seq<Seq<char>>) -> bool {
    forall|i: int, j: int| 0 <= i < j < hs.len() ==> hs[i] != hs[j]
}

/// Folding hits into a duplicate-free list keeps it duplicate-free.
proof fn lemma_accumulate_distinct(acc: Seq<Seq<char>>, hs: Seq<Seq<char>>, limit: nat)
    requires
        distinct_hashes(acc),
    ensures
        distinct_hashes(accumulate(acc, hs, limit)),
    decreases hs.len(),
{
    if hs.len() > 0 {
        let acc2 = if acc.len() < limit && !acc.contains(hs[0]) {
            acc.push(hs[0])
        } else {
            acc
        };
        if acc.len() < limit && !acc.contains(hs[0]) {
            assert forall|i: int, j: int| 0 <= i < j < acc2.len() implies acc2[i] != acc2[j] by {
                if j == acc2.len() - 1 {
                    assert(acc2[j] == hs[0]);
                    assert(acc.contains(acc[i]));
                }
            }
        }
        lemma_accumulate_distinct(acc2, hs.drop_first(), limit);
    }
}

/// A hit already in the accumulated list stays there.
proof fn lemma_accumulate_preserves(acc: Seq<Seq<char>>, hs: Seq<Seq<char>>, limit: nat, h: Seq<char>)
    requires
        acc.contains(h),
    ensures
        accumulate(acc, hs, limit).contains(h),
    decreases hs.len(),
{
    if hs.len() > 0 {
        let acc2 = if acc.len() < limit && !acc.contains(hs[0]) {
            acc.push(hs[0])
        } else {
            acc
        };
        if acc.len() < limit && !acc.contains(hs[0]) {
            let k = choose|k: int| 0 <= k < acc.len() && acc[k] == h;
            assert(acc2[k] == h);
            assert(acc2.contains(h));
        }
        lemma_accumulate_preserves(acc2, hs.drop_first(), limit, h);
    }
}

/// Everything in the folded list was already accumulated or is one of
/// the pass's hits.
proof fn lemma_accumulate_source(acc: Seq<Seq<char>>, hs: Seq<Seq<char>>, limit: nat, h: Seq<char>)
    requires
        accumulate(acc, hs, limit).contains(h),
    ensures
        acc.contains(h) || hs.contains(h),
    decreases hs.len(),
{
    if hs.len() > 0 {
        let acc2 = if acc.len() < limit && !acc.contains(hs[0]) {
            acc.push(hs[0])
        } else {
            acc
        };
        lemma_accumulate_source(acc2, hs.drop_first(), limit, h);
        if acc2.contains(h) {
            if acc.len() < limit && !acc.contains(hs[0]) {
                let k = choose|k: int| 0 <= k < acc2.len() && acc2[k] == h;
                if k < acc.len() {
                    assert(acc[k] == h);
                } else {
                    assert(h == hs[0]);
                }
            }
        } else {
            let k = choose|k: int| 0 <= k < hs.drop_first().len() && hs.drop_first()[k] == h;
            assert(hs[k + 1] == h);
        }
    }
}

/// When the cap leaves room for the whole pass, every hit of the pass
/// ends up accumulated.
proof fn lemma_accumulate_adds(acc: Seq<Seq<char>>, hs: Seq<Seq<char>>, limit: nat, h: Seq<char>)
    requires
        hs.contains(h),
        acc.len() + hs.len() <= limit,
    ensures
        accumulate(acc, hs, limit).contains(h),
    decreases hs.len(),
{
    let acc2 = if acc.len() < limit && !acc.contains(hs[0]) {
        acc.push(hs[0])
    } else {
        acc
    };
    if h == hs[0] {
        if acc.contains(h) || !(acc.len() < limit) {
            assert(acc2.contains(h) || acc.contains(h));
        } else {
            assert(acc2[acc.len() as int] == h);
        }
        assert(acc2.contains(h));
        lemma_accumulate_preserves(acc2, hs.drop_first(), limit, h);
    } else {
        let k = choose|k: int| 0 <= k < hs.len() && hs[k] == h;
        assert(hs.drop_first()[k - 1] == h);
        assert(hs.drop_first().contains(h));
        lemma_accumulate_adds(acc2, hs.drop_first(), limit, h);
    }
}

/// Folding hits never grows the list past the cap.
proof fn lemma_accumulate_len(acc: Seq<Seq<char>>, hs: Seq<Seq<char>>, limit: nat)
    requires
        acc.len() <= limit,
    ensures
        accumulate(acc, hs, limit).len() <= limit,
    decreases hs.len(),
{
    if hs.len() > 0 {
        let acc2 = if acc.len() < limit && !acc.contains(hs[0]) {
            acc.push(hs[0])
        } else {
            acc
        };
        lemma_accumulate_len(acc2, hs.drop_first(), limit);
    }
}

/// A search never returns more than the configured limit of documents,
/// all passes together.
pub proof fn lemma_search_capped(ds: Seq<DocV>, words: Seq<Seq<char>>, limit: nat)
    ensures
        spec_search(ds, words, limit).len() <= limit,
{
    let p0 = accumulate(Seq::empty(), hashes_of(matching(ds, words, 0)), limit);
    lemma_accumulate_len(Seq::empty(), hashes_of(matching(ds, words, 0)), limit);
    let p1 = accumulate(p0, hashes_of(matching(ds, words, 1)), limit);
    lemma_accumulate_len(p0, hashes_of(matching(ds, words, 1)), limit);
    lemma_accumulate_len(p1, hashes_of(matching(ds, words, 2)), limit);
}

/// What was already accumulated stays in place: the fold only appends.
proof fn lemma_accumulate_prefix(acc: Seq<Seq<char>>, hs: Seq<Seq<char>>, limit: nat)
    ensures
        accumulate(acc, hs, limit).len() >= acc.len(),
        accumulate(acc, hs, limit).take(acc.len() as int) == acc,
    decreases hs.len(),
{
    if hs.len() == 0 {
        assert(accumulate(acc, hs, limit).take(acc.len() as int) =~= acc);
    } else {
        let acc2 = if acc.len() < limit && !acc.contains(hs[0]) {
            acc.push(hs[0])
        } else {
            acc
        };
        lemma_accumulate_prefix(acc2, hs.drop_first(), limit);
        let r = accumulate(acc, hs, limit);
        assert(r.take(acc2.len() as int) == acc2);
        assert(r.take(acc.len() as int) =~= r.take(acc2.len() as int).take(acc.len() as int));
        assert(acc2.take(acc.len() as int) =~= acc);
    }
}

/// A full list absorbs nothing more.
proof fn lemma_accumulate_stuck(acc: Seq<Seq<char>>, hs: Seq<Seq<char>>, limit: nat)
    requires
        acc.len() >= limit,
    ensures
        accumulate(acc, hs, limit) == acc,
    decreases hs.len(),
{
    if hs.len() > 0 {
        lemma_accumulate_stuck(acc, hs.drop_first(), limit);
    }
}

/// A pass hit that the fold left out proves the cap was reached.
proof fn lemma_accumulate_skip_means_full(
    acc: Seq<Seq<char>>,
    hs: Seq<Seq<char>>,
    limit: nat,
    h: Seq<char>,
)
    requires
        hs.contains(h),
        !accumulate(acc, hs, limit).contains(h),
    ensures
        accumulate(acc, hs, limit).len() >= limit,
    decreases hs.len(),
{
    let acc2 = if acc.len() < limit && !acc.contains(hs[0]) {
        acc.push(hs[0])
    } else {
        acc
    };
    if h == hs[0] {
        if acc.contains(h) {
            lemma_accumulate_preserves(acc2, hs.drop_first(), limit, h);
            assert(false);
        } else if acc.len() < limit {
            assert(acc2[acc.len() as int] == h);
            assert(acc2.contains(h));
            lemma_accumulate_preserves(acc2, hs.drop_first(), limit, h);
            assert(false);
        } else {
            lemma_accumulate_stuck(acc, hs.drop_first(), limit);
        }
    } else {
        let k = choose|k: int| 0 <= k < hs.len() && hs[k] == h;
        assert(hs.drop_first()[k - 1] == h);
        assert(hs.drop_first().contains(h));
        lemma_accumulate_skip_means_full(acc2, hs.drop_first(), limit, h);
    }
}

/// Exact matches rank ahead: when the unique document under one
/// fingerprint matches already at tolerance zero and the one under
/// another fingerprint does not, and a search returns both, the first
/// fingerprint comes strictly earlier in the result list.
pub proof fn lemma_exact_matches_rank_first(
    ds: Seq<DocV>,
    words: Seq<Seq<char>>,
    limit: nat,
    hi: Seq<char>,
    hj: Seq<char>,
)
    requires
        unique_hashes(ds),
        spec_search(ds, words, limit).contains(hi),
        spec_search(ds, words, limit).contains(hj),
        exists|i: int|
            0 <= i < ds.len() && (#[trigger] ds[i]).hash == hi && spec_doc_matches(
                ds[i],
                words,
                0,
            ),
        forall|k: int|
            0 <= k < ds.len() && (#[trigger] ds[k]).hash == hj ==> !spec_doc_matches(
                ds[k],
                words,
                0,
            ),
    ensures
        forall|pi: int, pj: int|
            0 <= pi < spec_search(ds, words, limit).len() && 0 <= pj < spec_search(
                ds,
                words,
                limit,
            ).len() && spec_search(ds, words, limit)[pi] == hi && spec_search(ds, words, limit)[pj]
                == hj ==> pi < pj,
{
    let h0 = hashes_of(matching(ds, words, 0));
    let h1 = hashes_of(matching(ds, words, 1));
    let h2 = hashes_of(matching(ds, words, 2));
    let p0 = accumulate(Seq::empty(), h0, limit);
    let p1 = accumulate(p0, h1, limit);
    let r = spec_search(ds, words, limit);
    let i = choose|i: int|
        0 <= i < ds.len() && (#[trigger] ds[i]).hash == hi && spec_doc_matches(ds[i], words, 0);
    // The two fingerprints differ: one unique document cannot both
    // match and not match at tolerance zero.
    assert(hi != hj);
    // hi is a pass-zero hit.
    lemma_matching_contains(ds, words, 0, i);
    assert(h0.contains(hi));
    // hi made it into the first pass's fold: had it been skipped, the
    // cap was reached there and nothing could have entered later —
    // contradicting that the search returned it at all.
    if !p0.contains(hi) {
        lemma_accumulate_skip_means_full(Seq::empty(), h0, limit, hi);
        lemma_accumulate_stuck(p0, h1, limit);
        lemma_accumulate_stuck(p1, h2, limit);
        assert(r == p0);
        assert(false);
    }
    // hj is not: every pass-zero hit is the fingerprint of a document
    // matching at tolerance zero, which hj's document is not.
    if p0.contains(hj) {
        lemma_accumulate_source(Seq::empty(), h0, limit, hj);
        assert(h0.contains(hj));
        let k = choose|k: int| 0 <= k < h0.len() && h0[k] == hj;
        lemma_matching_source(ds, words, 0);
        let d = matching(ds, words, 0)[k];
        let q = choose|q: int| 0 <= q < ds.len() && ds[q] == d;
        assert(ds[q].hash == hj && spec_doc_matches(ds[q], words, 0));
        assert(false);
    }
    // The first pass's fold is a prefix of the final result.
    lemma_accumulate_prefix(p0, h1, limit);
    lemma_accumulate_prefix(p1, h2, limit);
    assert(r.take(p1.len() as int) == p1);
    assert(r.take(p0.len() as int) =~= r.take(p1.len() as int).take(p0.len() as int));
    assert(p1.take(p0.len() as int) == p0);
    assert(r.take(p0.len() as int) == p0);
    lemma_search_no_duplicates(ds, words, limit);
    let qi = choose|qi: int| 0 <= qi < p0.len() && p0[qi] == hi;
    assert(r[qi] == hi);
    assert forall|pi: int, pj: int|
        0 <= pi < r.len() && 0 <= pj < r.len() && r[pi] == hi && r[pj] == hj implies pi < pj by {
        assert(pi == qi) by {
            if pi != qi {
                assert(r[pi] == r[qi]);
            }
        }
        if pj < p0.len() {
            assert(p0[pj] == hj);
            assert(p0.contains(hj));
        }
        assert(pj >= p0.len());
        assert(pi < p0.len());
    }
}

/// A pass has no more hits than the index has documents.
proof fn lemma_matching_len(ds: Seq<DocV>, words: Seq<Seq<char>>, tol: nat)
    ensures
        matching(ds, words, tol).len() <= ds.len(),
    decreases ds.len(),
{
    if ds.len() > 0 {
        lemma_matching_len(ds.drop_last(), words, tol);
    }
}

/// A matching document appears among the pass's hits.
proof fn lemma_matching_contains(ds: Seq<DocV>, words: Seq<Seq<char>>, tol: nat, i: int)
    requires
        0 <= i < ds.len(),
        spec_doc_matches(ds[i], words, tol),
    ensures
        hashes_of(matching(ds, words, tol)).contains(ds[i].hash),
    decreases ds.len(),
{
    let m = matching(ds, words, tol);
    if i == ds.len() - 1 {
        assert(ds.last() == ds[i]);
        assert(m[m.len() - 1] == ds[i]);
        assert(hashes_of(m)[m.len() - 1] == ds[i].hash);
    } else {
        assert(ds.drop_last()[i] == ds[i]);
        lemma_matching_contains(ds.drop_last(), words, tol, i);
        let m0 = matching(ds.drop_last(), words, tol);
        let k = choose|k: int| 0 <= k < hashes_of(m0).len() && hashes_of(m0)[k] == ds[i].hash;
        assert(m[k] == m0[k]);
        assert(hashes_of(m)[k] == ds[i].hash);
    }
}

/// Every hit of a pass is a matching document of the index.
proof fn lemma_matching_source(ds: Seq<DocV>, words: Seq<Seq<char>>, tol: nat)
    ensures
        forall|k: int|
            0 <= k < matching(ds, words, tol).len() ==> {
                let d = #[trigger] matching(ds, words, tol)[k];
                ds.contains(d) && spec_doc_matches(d, words, tol)
            },
    decreases ds.len(),
{
    if ds.len() > 0 {
        lemma_matching_source(ds.drop_last(), words, tol);
        let m = matching(ds, words, tol);
        let m0 = matching(ds.drop_last(), words, tol);
        assert forall|k: int| 0 <= k < m.len() implies {
            let d = #[trigger] m[k];
            ds.contains(d) && spec_doc_matches(d, words, tol)
        } by {
            if k < m0.len() {
                assert(m[k] == m0[k]);
                let j = choose|j: int| 0 <= j < ds.drop_last().len() && ds.drop_last()[j] == m0[k];
                assert(ds[j] == m0[k]);
            } else {
                assert(m[k] == ds.last());
            }
        }
    }
}

/// A search returns each fingerprint at most once, even when a record
/// matches in several passes.
pub proof fn lemma_search_no_duplicates(ds: Seq<DocV>, words: Seq<Seq<char>>, limit: nat)
    ensures
        distinct_hashes(spec_search(ds, words, limit)),
{
    let p0 = accumulate(Seq::empty(), hashes_of(matching(ds, words, 0)), limit);
    let p1 = accumulate(p0, hashes_of(matching(ds, words, 1)), limit);
    lemma_accumulate_distinct(Seq::empty(), hashes_of(matching(ds, words, 0)), limit);
    lemma_accumulate_distinct(p0, hashes_of(matching(ds, words, 1)), limit);
    lemma_accumulate_distinct(p1, hashes_of(matching(ds, words, 2)), limit);
}

/// Every fingerprint a search returns belongs to an indexed document
/// that matches the query at the loosest tolerance.
pub proof fn lemma_search_only_matches(
    ds: Seq<DocV>,
    words: Seq<Seq<char>>,
    limit: nat,
    h: Seq<char>,
)
    requires
        spec_search(ds, words, limit).contains(h),
    ensures
        exists|i: int|
            0 <= i < ds.len() && (#[trigger] ds[i]).hash == h && spec_doc_matches(ds[i], words, 2),
{
    let h0 = hashes_of(matching(ds, words, 0));
    let h1 = hashes_of(matching(ds, words, 1));
    let h2 = hashes_of(matching(ds, words, 2));
    let p0 = accumulate(Seq::empty(), h0, limit);
    let p1 = accumulate(p0, h1, limit);
    lemma_accumulate_source(p1, h2, limit, h);
    if p1.contains(h) {
        lemma_accumulate_source(p0, h1, limit, h);
        if p0.contains(h) {
            lemma_accumulate_source(Seq::empty(), h0, limit, h);
        }
    }
    lemma_matching_source(ds, words, 0);
    lemma_matching_source(ds, words, 1);
    lemma_matching_source(ds, words, 2);
    assert(h0.contains(h) || h1.contains(h) || h2.contains(h));
    if h0.contains(h) {
        let k = choose|k: int| 0 <= k < h0.len() && h0[k] == h;
        let d = matching(ds, words, 0)[k];
        lemma_doc_match_monotonic(d, words, 0, 2);
        let i = choose|i: int| 0 <= i < ds.len() && ds[i] == d;
        assert(ds[i].hash == h && spec_doc_matches(ds[i], words, 2));
    } else if h1.contains(h) {
        let k = choose|k: int| 0 <= k < h1.len() && h1[k] == h;
        let d = matching(ds, words, 1)[k];
        lemma_doc_match_monotonic(d, words, 1, 2);
        let i = choose|i: int| 0 <= i < ds.len() && ds[i] == d;
        assert(ds[i].hash == h && spec_doc_matches(ds[i], words, 2));
    } else {
        let k = choose|k: int| 0 <= k < h2.len() && h2[k] == h;
        let d = matching(ds, words, 2)[k];
        let i = choose|i: int| 0 <= i < ds.len() && ds[i] == d;
        assert(ds[i].hash == h && spec_doc_matches(ds[i], words, 2));
    }
}

/// A fingerprint no indexed document carries is never returned; in
/// particular, after a deletion the deleted records are gone from every
/// search.
pub proof fn lemma_absent_never_found(
    ds: Seq<DocV>,
    words: Seq<Seq<char>>,
    limit: nat,
    h: Seq<char>,
)
    requires
        forall|i: int| 0 <= i < ds.len() ==> (#[trigger] ds[i]).hash != h,
    ensures
        !spec_search(ds, words, limit).contains(h),
{
    if spec_search(ds, words, limit).contains(h) {
        lemma_search_only_matches(ds, words, limit, h);
    }
}

/// Deleting a fingerprint removes it from every subsequent search.
pub proof fn lemma_delete_then_search(
    ds: Seq<DocV>,
    hs: Seq<Seq<char>>,
    words: Seq<Seq<char>>,
    limit: nat,
    h: Seq<char>,
)
    requires
        hs.contains(h),
    ensures
        !spec_search(remove_hashes(ds, hs), words, limit).contains(h),
{
    lemma_remove_hashes_elems(ds, hs);
    let r = remove_hashes(ds, hs);
    assert forall|i: int| 0 <= i < r.len() implies (#[trigger] r[i]).hash != h by {
        if r[i].hash == h {
            assert(hs.contains(r[i].hash));
        }
    }
    lemma_absent_never_found(r, words, limit, h);
}

/// A document matching already at tolerance zero is always returned
/// when the cap leaves room for the whole index.
pub proof fn lemma_match_is_found(ds: Seq<DocV>, words: Seq<Seq<char>>, limit: nat, i: int)
    requires
        0 <= i < ds.len(),
        spec_doc_matches(ds[i], words, 0),
        ds.len() <= limit,
    ensures
        spec_search(ds, words, limit).contains(ds[i].hash),
{
    let h = ds[i].hash;
    let h0 = hashes_of(matching(ds, words, 0));
    lemma_matching_contains(ds, words, 0, i);
    lemma_matching_len(ds, words, 0);
    lemma_accumulate_adds(Seq::empty(), h0, limit, h);
    let p0 = accumulate(Seq::empty(), h0, limit);
    lemma_accumulate_preserves(p0, hashes_of(matching(ds, words, 1)), limit, h);
    let p1 = accumulate(p0, hashes_of(matching(ds, words, 1)), limit);
    lemma_accumulate_preserves(p1, hashes_of(matching(ds, words, 2)), limit, h);
}

/// A document matching at tolerance zero appears exactly once in the
/// result — not once per pass — when the cap leaves room for the whole
/// index. (With more documents than the cap, a match can be excluded
/// entirely by the cap itself.)
pub proof fn lemma_match_found_exactly_once(ds: Seq<DocV>, words: Seq<Seq<char>>, limit: nat, i: int)
    requires
        0 <= i < ds.len(),
        spec_doc_matches(ds[i], words, 0),
        ds.len() <= limit,
    ensures
        exists|p: int|
            0 <= p < spec_search(ds, words, limit).len() && spec_search(ds, words, limit)[p]
                == ds[i].hash && (forall|q: int|
                0 <= q < spec_search(ds, words, limit).len() && spec_search(ds, words, limit)[q]
                    == ds[i].hash ==> q == p),
{
    let r = spec_search(ds, words, limit);
    let h = ds[i].hash;
    lemma_match_is_found(ds, words, limit, i);
    lemma_search_no_duplicates(ds, words, limit);
    let p = choose|p: int| 0 <= p < r.len() && r[p] == h;
    assert forall|q: int| 0 <= q < r.len() && r[q] == h implies q == p by {
        if q != p {
            assert(r[q] == r[p]);
        }
    }
    assert(0 <= p < r.len() && r[p] == h && (forall|q: int|
        0 <= q < r.len() && r[q] == h ==> q == p));
}

/// After an update whose new document no longer matches the query at
/// any tolerance, the record's fingerprint is no longer returned: stale
/// tags stop matching.
pub proof fn lemma_update_stale_query_gone(
    ds: Seq<DocV>,
    d: DocV,
    words: Seq<Seq<char>>,
    limit: nat,
)
    requires
        !spec_doc_matches(d, words, 2),
    ensures
        !spec_search(spec_upsert(ds, d), words, limit).contains(d.hash),
{
    let u = spec_upsert(ds, d);
    let r = remove_hash(ds, d.hash);
    lemma_remove_hash_elems(ds, d.hash);
    if spec_search(u, words, limit).contains(d.hash) {
        lemma_search_only_matches(u, words, limit, d.hash);
        let i = choose|i: int|
            0 <= i < u.len() && (#[trigger] u[i]).hash == d.hash && spec_doc_matches(
                u[i],
                words,
                2,
            );
        if i < r.len() {
            assert(u[i] == r[i]);
        } else {
            assert(u[i] == d);
        }
    }
}

/// After an update whose new document matches the query exactly, the
/// record's fingerprint is returned whenever the cap leaves room: new
/// tags start matching.
pub proof fn lemma_update_fresh_query_found(
    ds: Seq<DocV>,
    d: DocV,
    words: Seq<Seq<char>>,
    limit: nat,
)
    requires
        spec_doc_matches(d, words, 0),
        spec_upsert(ds, d).len() <= limit,
    ensures
        spec_search(spec_upsert(ds, d), words, limit).contains(d.hash),
{
    let u = spec_upsert(ds, d);
    assert(u[u.len() - 1] == d);
    lemma_match_is_found(u, words, limit, u.len() - 1);
}

/// Two queries with the same normalized form search identically: the
/// result list and its order depend only on the normalized query.
pub proof fn lemma_search_normalized_query(
    ds: Seq<DocV>,
    q1: Seq<char>,
    q2: Seq<char>,
    limit: nat,
)
    requires
        crate::text::spec_normalize(q1) == crate::text::spec_normalize(q2),
    ensures
        spec_search(ds, spec_query_words(q1), limit) == spec_search(ds, spec_query_words(q2), limit),
{
    crate::text::lemma_words_normalize(q1);
    crate::text::lemma_words_normalize(q2);
    assert(crate::text::spec_words(q1) == crate::text::spec_words(q2));
    assert(spec_query_words(q1) =~= spec_query_words(q2));
}

} // verus!
