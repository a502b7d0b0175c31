//! The record model: a `Metadata` record per ingested item, its content
//! type and lifecycle status, and the text codecs the store contract
//! uses for those fields.

use vstd::prelude::*;
use crate::foc_error::FocError;
use crate::text::clone_opt_string;
use crate::text::clone_strings;
use crate::text::str_eq;
use vstd::string::StringExecFns;

verus! {

/// Coarse classification of ingested content, decided once at ingestion.
#[derive(Clone, Copy, PartialEq, Eq, Structural, Debug)]
pub enum ContentType {
    Image,
    Audio,
    Video,
    Gif,
    Link,
    Other,
}

/// Lifecycle flag of a record.
#[derive(Clone, Copy, PartialEq, Eq, Structural, Debug)]
pub enum Status {
    Valid,
    Deleted,
    Duplicate,
}

/// The content type a stored name denotes, if any.
pub open spec fn spec_content_type_of(s: Seq<char>) -> Option<ContentType> {
    if s == "Image"@ {
        Some(ContentType::Image)
    } else if s == "Gif"@ {
        Some(ContentType::Gif)
    } else if s == "Video"@ {
        Some(ContentType::Video)
    } else if s == "Audio"@ {
        Some(ContentType::Audio)
    } else if s == "Link"@ {
        Some(ContentType::Link)
    } else if s == "Other"@ {
        Some(ContentType::Other)
    } else {
        None
    }
}

/// The stored name of a content type.
pub open spec fn spec_content_type_name(ct: ContentType) -> Seq<char> {
    match ct {
        ContentType::Image => "Image"@,
        ContentType::Gif => "Gif"@,
        ContentType::Video => "Video"@,
        ContentType::Audio => "Audio"@,
        ContentType::Link => "Link"@,
        ContentType::Other => "Other"@,
    }
}

impl ContentType {
    /// Parses a stored content-type name; every other string is rejected.
    pub fn from_string(content_type: &str) -> (r: Result<ContentType, FocError>)
        ensures
            r is Ok <==> spec_content_type_of(content_type@) is Some,
            r is Ok ==> Some(r->Ok_0) == spec_content_type_of(content_type@),
            r is Err ==> r->Err_0 is Extension,
    {
        if str_eq(content_type, "Image") {
            Ok(ContentType::Image)
        } else if str_eq(content_type, "Gif") {
            Ok(ContentType::Gif)
        } else if str_eq(content_type, "Video") {
            Ok(ContentType::Video)
        } else if str_eq(content_type, "Audio") {
            Ok(ContentType::Audio)
        } else if str_eq(content_type, "Link") {
            Ok(ContentType::Link)
        } else if str_eq(content_type, "Other") {
            Ok(ContentType::Other)
        } else {
            Err(FocError::Extension(String::from_str("Invalid content type")))
        }
    }

    /// The stored name of this content type.
    pub fn to_string(&self) -> (r: &'static str)
        ensures
            r@ == spec_content_type_name(*self),
    {
        match self {
            ContentType::Image => "Image",
            ContentType::Gif => "Gif",
            ContentType::Video => "Video",
            ContentType::Audio => "Audio",
            ContentType::Link => "Link",
            ContentType::Other => "Other",
        }
    }
}

impl Default for ContentType {
    /// The fallback classification.
    fn default() -> (r: Self)
        ensures
            r is Other,
    {
        ContentType::Other
    }
}

/// The status a stored name denotes, if any.
pub open spec fn spec_status_of(s: Seq<char>) -> Option<Status> {
    if s == "Valid"@ {
        Some(Status::Valid)
    } else if s == "Deleted"@ {
        Some(Status::Deleted)
    } else if s == "Duplicate"@ {
        Some(Status::Duplicate)
    } else {
        None
    }
}

/// The stored name of a status.
pub open spec fn spec_status_name(s: Status) -> Seq<char> {
    match s {
        Status::Valid => "Valid"@,
        Status::Deleted => "Deleted"@,
        Status::Duplicate => "Duplicate"@,
    }
}

impl Status {
    /// Parses a stored status name; every other string is rejected.
    pub fn from_string(status: &str) -> (r: Result<Status, FocError>)
        ensures
            r is Ok <==> spec_status_of(status@) is Some,
            r is Ok ==> Some(r->Ok_0) == spec_status_of(status@),
            r is Err ==> r->Err_0 is Extension,
    {
        if str_eq(status, "Valid") {
            Ok(Status::Valid)
        } else if str_eq(status, "Deleted") {
            Ok(Status::Deleted)
        } else if str_eq(status, "Duplicate") {
            Ok(Status::Duplicate)
        } else {
            Err(FocError::Extension(String::from_str("Invalid status")))
        }
    }

    /// The stored name of this status.
    pub fn to_string(&self) -> (r: &'static str)
        ensures
            r@ == spec_status_name(*self),
    {
        match self {
            Status::Valid => "Valid",
            Status::Deleted => "Deleted",
            Status::Duplicate => "Duplicate",
        }
    }
}

impl Default for Status {
    /// The status newly ingested records get.
    fn default() -> (r: Self)
        ensures
            r is Valid,
    {
        Status::Valid
    }
}

/// Parsing a stored content-type name written by [`ContentType::to_string`]
/// recovers the content type.
pub proof fn lemma_content_type_name_round_trip(ct: ContentType)
    ensures
        spec_content_type_of(spec_content_type_name(ct)) == Some(ct),
{
    reveal_strlit("Image");
    reveal_strlit("Gif");
    reveal_strlit("Video");
    reveal_strlit("Audio");
    reveal_strlit("Link");
    reveal_strlit("Other");
    assert(("Image"@).len() == 5);
    assert(("Gif"@).len() == 3);
    assert(("Video"@).len() == 5);
    assert(("Audio"@).len() == 5);
    assert(("Link"@).len() == 4);
    assert(("Other"@).len() == 5);
    assert(("Image"@)[0] == 'I' && ("Video"@)[0] == 'V' && ("Audio"@)[0] == 'A' && ("Other"@)[0]
        == 'O');
}

/// Parsing a stored status name written by [`Status::to_string`] recovers
/// the status.
pub proof fn lemma_status_name_round_trip(s: Status)
    ensures
        spec_status_of(spec_status_name(s)) == Some(s),
{
    reveal_strlit("Valid");
    reveal_strlit("Deleted");
    reveal_strlit("Duplicate");
    assert(("Valid"@).len() == 5);
    assert(("Deleted"@).len() == 7);
    assert(("Duplicate"@).len() == 9);
}

/// The mathematical shape of a record: every field as a plain value.
pub ghost struct MetadataV {
    pub hash: Seq<char>,
    pub name: Seq<char>,
    pub path: Seq<char>,
    pub content_type: ContentType,
    pub status: Status,
    pub timestamp_created: i32,
    pub timestamp_modified: i32,
    pub extension: Option<Seq<char>>,
    pub tags: Option<Seq<Seq<char>>>,
    pub notes: Option<Seq<char>>,
    pub width: Option<i32>,
    pub height: Option<i32>,
    pub duration: Option<i32>,
}

/// The unit of ingestion and search. The `hash` field is the
/// fingerprint: the record's immutable primary key.
#[derive(Debug)]
pub struct Metadata {
    pub hash: String,
    pub name: String,
    pub path: String,
    pub content_type: ContentType,
    pub status: Status,
    pub timestamp_created: i32,
    pub timestamp_modified: i32,
    pub extension: Option<String>,
    pub tags: Option<Vec<String>>,
    pub notes: Option<String>,
    pub width: Option<i32>,
    pub height: Option<i32>,
    pub duration: Option<i32>,
}

/// The character sequences of a sequence of strings.
pub open spec fn views_of_strings(vs: Seq<String>) -> Seq<Seq<char>> {
    Seq::new(vs.len(), |i: int| vs[i]@)
}

/// The views of a sequence of records.
pub open spec fn records_views(ms: Seq<Metadata>) -> Seq<MetadataV> {
    Seq::new(ms.len(), |i: int| ms[i]@)
}

impl View for Metadata {
    type V = MetadataV;

    open spec fn view(&self) -> MetadataV {
        MetadataV {
            hash: self.hash@,
            name: self.name@,
            path: self.path@,
            content_type: self.content_type,
            status: self.status,
            timestamp_created: self.timestamp_created,
            timestamp_modified: self.timestamp_modified,
            extension: match self.extension {
                Some(ref s) => Some(s@),
                None => None,
            },
            tags: match self.tags {
                Some(ref v) => Some(views_of_strings(v@)),
                None => None,
            },
            notes: match self.notes {
                Some(ref s) => Some(s@),
                None => None,
            },
            width: self.width,
            height: self.height,
            duration: self.duration,
        }
    }
}

/// The longest semicolon-free prefix of `s`.
pub open spec fn spec_first_piece(s: Seq<char>) -> Seq<char>
    decreases s.len(),
{
    if s.len() == 0 || s[0] == ';' {
        Seq::empty()
    } else {
        seq![s[0]] + spec_first_piece(s.drop_first())
    }
}

proof fn lemma_first_piece_len(s: Seq<char>)
    ensures
        spec_first_piece(s).len() <= s.len(),
    decreases s.len(),
{
    if s.len() > 0 && s[0] != ';' {
        lemma_first_piece_len(s.drop_first());
    }
}

/// The semicolon-separated pieces of a text, empty pieces included;
/// there is always at least one piece.
pub open spec fn spec_split_semi(s: Seq<char>) -> Seq<Seq<char>>
    decreases s.len(),
    via spec_split_semi_decreases
{
    let p = spec_first_piece(s);
    if p.len() == s.len() {
        seq![s]
    } else {
        seq![p] + spec_split_semi(s.skip(p.len() as int + 1))
    }
}

#[via_fn]
proof fn spec_split_semi_decreases(s: Seq<char>) {
    lemma_first_piece_len(s);
}

/// The pieces joined back with semicolons.
pub open spec fn spec_join_semi(ts: Seq<Seq<char>>) -> Seq<char>
    decreases ts.len(),
{
    if ts.len() == 0 {
        Seq::empty()
    } else if ts.len() == 1 {
        ts[0]
    } else {
        ts[0] + seq![';'] + spec_join_semi(ts.drop_first())
    }
}

/// A tag that the semicolon codec round-trips: it holds no semicolon.
pub open spec fn semi_free(w: Seq<char>) -> bool {
    forall|i: int| 0 <= i < w.len() ==> w[i] != ';'
}

/// A semicolon-free prefix followed by a semicolon-headed (or empty)
/// remainder is its own first piece.
proof fn lemma_first_piece_of_concat(w: Seq<char>, rest: Seq<char>)
    requires
        semi_free(w),
        rest.len() == 0 || rest[0] == ';',
    ensures
        spec_first_piece(w + rest) == w,
    decreases w.len(),
{
    let s = w + rest;
    if w.len() == 0 {
        assert(s =~= rest);
        assert(spec_first_piece(rest) =~= Seq::<char>::empty());
    } else {
        let wt = w.drop_first();
        assert forall|i: int| 0 <= i < wt.len() implies wt[i] != ';' by {
            assert(wt[i] == w[i + 1]);
        }
        lemma_first_piece_of_concat(wt, rest);
        assert(s[0] == w[0]);
        assert(s.drop_first() =~= wt + rest);
        assert(spec_first_piece(s) =~= w);
    }
}

/// Splitting the joined form of semicolon-free tags recovers the tags:
/// the tags column round-trips through its stored text.
pub proof fn lemma_tags_round_trip(ts: Seq<Seq<char>>)
    requires
        ts.len() >= 1,
        forall|i: int| 0 <= i < ts.len() ==> semi_free(#[trigger] ts[i]),
    ensures
        spec_split_semi(spec_join_semi(ts)) == ts,
    decreases ts.len(),
{
    if ts.len() == 1 {
        let w = ts[0];
        assert(spec_join_semi(ts) == w);
        assert(w + Seq::<char>::empty() =~= w);
        lemma_first_piece_of_concat(w, Seq::empty());
        assert(spec_first_piece(w) == w);
        assert(spec_split_semi(w) =~= seq![w]);
        assert(spec_split_semi(spec_join_semi(ts)) =~= ts);
    } else {
        let w = ts[0];
        let rest = spec_join_semi(ts.drop_first());
        let s = spec_join_semi(ts);
        let tail = seq![';'] + rest;
        assert(s == w + seq![';'] + rest);
        assert(s =~= w + tail);
        lemma_first_piece_of_concat(w, tail);
        assert(spec_first_piece(s) == w);
        assert(w.len() < s.len());
        assert(s.skip(w.len() as int + 1) =~= rest);
        assert forall|i: int| 0 <= i < ts.drop_first().len() implies semi_free(
            #[trigger] ts.drop_first()[i],
        ) by {
            assert(ts.drop_first()[i] == ts[i + 1]);
        }
        lemma_tags_round_trip(ts.drop_first());
        assert(spec_split_semi(s) =~= seq![w] + ts.drop_first());
        assert(spec_split_semi(s) =~= ts);
    }
}

proof fn lemma_join_semi_snoc(ts: Seq<Seq<char>>, w: Seq<char>)
    requires
        ts.len() >= 1,
    ensures
        spec_join_semi(ts.push(w)) == spec_join_semi(ts) + seq![';'] + w,
    decreases ts.len(),
{
    let p = ts.push(w);
    if ts.len() == 1 {
        assert(p.drop_first() =~= seq![w]);
        assert(spec_join_semi(seq![w]) == w);
        assert(spec_join_semi(p) =~= ts[0] + seq![';'] + w);
        assert(spec_join_semi(ts) == ts[0]);
    } else {
        assert(p.drop_first() =~= ts.drop_first().push(w));
        lemma_join_semi_snoc(ts.drop_first(), w);
        assert(spec_join_semi(p) == p[0] + seq![';'] + spec_join_semi(p.drop_first()));
        assert(p[0] == ts[0]);
        assert(spec_join_semi(p) =~= spec_join_semi(ts) + seq![';'] + w);
    }
}

/// Renders a tags value as the text the store keeps: tags joined with
/// semicolons; an absent value stays absent.
pub fn tags_to_text(tags: &Option<Vec<String>>) -> (r: Option<String>)
    ensures
        match tags {
            Some(v) => r matches Some(s) && s@ == spec_join_semi(views_of_strings(v@)),
            None => r is None,
        },
{
    let v = match tags {
        Some(v) => v,
        None => {
            return None;
        },
    };
    let ghost ws = views_of_strings(v@);
    let mut out: Vec<char> = Vec::new();
    let mut i: usize = 0;
    proof {
        assert(ws.take(0) =~= Seq::<Seq<char>>::empty());
    }
    while i < v.len()
        invariant
            i <= v@.len(),
            ws == views_of_strings(v@),
            out@ == spec_join_semi(ws.take(i as int)),
        decreases v@.len() - i,
    {
        if i > 0 {
            out.push(';');
        }
        let ghost mid = out@;
        let w = crate::text::chars_of(v[i].as_str());
        let mut j: usize = 0;
        while j < w.len()
            invariant
                j <= w@.len(),
                w@ == ws[i as int],
                i < ws.len(),
                out@ == mid + w@.take(j as int),
            decreases w@.len() - j,
        {
            out.push(w[j]);
            proof {
                assert(mid + w@.take(j + 1) =~= (mid + w@.take(j as int)).push(w@[j as int]));
            }
            j = j + 1;
        }
        proof {
            assert(w@.take(w@.len() as int) =~= w@);
            assert(ws.take(i + 1) =~= ws.take(i as int).push(ws[i as int]));
            if i == 0 {
                assert(spec_join_semi(seq![ws[0]]) == ws[0]);
                assert(ws.take(1) =~= seq![ws[0]]);
                assert(out@ =~= spec_join_semi(ws.take(1)));
            } else {
                lemma_join_semi_snoc(ws.take(i as int), ws[i as int]);
                assert(out@ =~= spec_join_semi(ws.take(i as int)) + seq![';'] + ws[i as int]);
            }
        }
        i = i + 1;
    }
    proof {
        assert(ws.take(ws.len() as int) =~= ws);
    }
    Some(crate::text::string_from_chars(&out))
}

/// Parses the text the store keeps back into a tags value: an absent or
/// empty text stays absent, anything else splits at semicolons.
pub fn text_to_tags(text: &Option<String>) -> (r: Option<Vec<String>>)
    ensures
        match text {
            Some(s) => if s@.len() == 0 {
                r is None
            } else {
                r matches Some(v) && views_of_strings(v@) == spec_split_semi(s@)
            },
            None => r is None,
        },
{
    let s = match text {
        Some(s) => s,
        None => {
            return None;
        },
    };
    if s.as_str().unicode_len() == 0 {
        return None;
    }
    let v = crate::text::chars_of(s.as_str());
    let n = v.len();
    let mut out: Vec<String> = Vec::new();
    let mut i: usize = 0;
    proof {
        assert(v@.skip(0) =~= v@);
        assert(views_of_strings(out@) + spec_split_semi(v@) =~= spec_split_semi(v@));
    }
    loop
        invariant_except_break
            i <= n == v@.len(),
            v@ == s@,
            views_of_strings(out@) + spec_split_semi(v@.skip(i as int)) == spec_split_semi(v@),
            i == 0 || v@[i - 1] == ';',
        ensures
            views_of_strings(out@) == spec_split_semi(s@),
        decreases n - i,
    {
        let mut piece: Vec<char> = Vec::new();
        let mut j: usize = i;
        while j < n && v[j] != ';'
            invariant
                i <= j <= n == v@.len(),
                piece@ == v@.subrange(i as int, j as int),
                forall|k: int| i <= k < j ==> v@[k] != ';',
            decreases n - j,
        {
            piece.push(v[j]);
            proof {
                assert(v@.subrange(i as int, j + 1) =~= v@.subrange(i as int, j as int).push(
                    v@[j as int],
                ));
            }
            j = j + 1;
        }
        proof {
            let tail = v@.skip(j as int);
            assert(v@.skip(i as int) =~= piece@ + tail);
            assert(semi_free(piece@));
            assert(tail.len() == 0 || tail[0] == ';');
            lemma_first_piece_of_concat(piece@, tail);
            assert(spec_first_piece(v@.skip(i as int)) == piece@);
        }
        let ghost pre = out@;
        out.push(crate::text::string_from_chars(&piece));
        proof {
            assert(views_of_strings(out@) =~= views_of_strings(pre).push(piece@));
        }
        if j < n {
            proof {
                let rem = v@.skip(i as int);
                assert(piece@.len() < rem.len());
                assert(rem.skip(piece@.len() as int + 1) =~= v@.skip(j + 1));
                assert(spec_split_semi(rem) == seq![piece@] + spec_split_semi(v@.skip(j + 1)));
                assert(views_of_strings(out@) + spec_split_semi(v@.skip(j + 1))
                    =~= views_of_strings(pre) + spec_split_semi(rem));
            }
            i = j + 1;
        } else {
            proof {
                let rem = v@.skip(i as int);
                assert(piece@.len() == rem.len());
                assert(piece@ =~= rem);
                assert(spec_split_semi(rem) == seq![rem]);
                assert(views_of_strings(out@) =~= views_of_strings(pre) + spec_split_semi(rem));
            }
            break;
        }
    }
    Some(out)
}

impl Metadata {
    /// A fresh record with the same view.
    pub fn duplicate(&self) -> (r: Metadata)
        ensures
            r@ == self@,
    {
        let r = Metadata {
            hash: self.hash.clone(),
            name: self.name.clone(),
            path: self.path.clone(),
            content_type: self.content_type,
            status: self.status,
            timestamp_created: self.timestamp_created,
            timestamp_modified: self.timestamp_modified,
            extension: clone_opt_string(&self.extension),
            tags: match &self.tags {
                Some(v) => Some(clone_strings(v)),
                None => None,
            },
            notes: clone_opt_string(&self.notes),
            width: self.width,
            height: self.height,
            duration: self.duration,
        };
        proof {
            match self.tags {
                Some(ref v) => {
                    assert(views_of_strings(r.tags->0@) =~= views_of_strings(v@));
                },
                None => {},
            }
            assert(r@ == self@);
        }
        r
    }
}

} // verus!
