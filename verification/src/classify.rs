//! Content-type classification: magic-byte sniffing through the infer
//! crate, and the mapping from a sniffed kind to the library's
//! `ContentType`.

use vstd::prelude::*;
use crate::foc_error::FocError;
use crate::metadata::ContentType;
use vstd::string::StringExecFns;

verus! {

/// The structural class a sniffer reports for a buffer.
#[derive(Clone, Copy, PartialEq, Eq, Structural, Debug)]
pub enum SniffClass {
    Image,
    Video,
    Audio,
    Other,
}

/// What sniffing a buffer yields: its class, mime type and canonical
/// extension.
pub struct SniffedKind {
    pub class: SniffClass,
    pub mime: String,
    pub extension: String,
}

/// The mathematical shape of a sniffed kind.
pub ghost struct SniffedKindV {
    pub class: SniffClass,
    pub mime: Seq<char>,
    pub extension: Seq<char>,
}

impl View for SniffedKind {
    type V = SniffedKindV;

    open spec fn view(&self) -> SniffedKindV {
        SniffedKindV { class: self.class, mime: self.mime@, extension: self.extension@ }
    }
}

/// What the sniffer reports for a byte content: a function of the bytes
/// alone.
pub uninterp spec fn sniff_of(bytes: Seq<u8>) -> Option<SniffedKindV>;

/// Relies on infer::get: the sniffed kind depends on the buffer's bytes
/// alone; its matcher class, mime type and extension are carried over
/// one for one.
#[verifier::external_body]
pub(crate) fn sniff(bytes: &Vec<u8>) -> (r: Option<SniffedKind>)
    ensures
        match r {
            Some(k) => sniff_of(bytes@) == Some(k@),
            None => sniff_of(bytes@) is None,
        },
{
    infer::get(bytes.as_slice()).map(
        |t|
            SniffedKind {
                class: match t.matcher_type() {
                    infer::MatcherType::Image => SniffClass::Image,
                    infer::MatcherType::Video => SniffClass::Video,
                    infer::MatcherType::Audio => SniffClass::Audio,
                    _ => SniffClass::Other,
                },
                mime: t.mime_type().to_owned(),
                extension: t.extension().to_owned(),
            },
    )
}

/// The content type a sniffed kind maps to, if any: images split into
/// `Gif` and `Image` by mime, video and audio map across, and any other
/// sniffed class is unsupported.
pub open spec fn spec_from_kind(k: SniffedKindV) -> Option<ContentType> {
    match k.class {
        SniffClass::Image => if k.mime == "image/gif"@ {
            Some(ContentType::Gif)
        } else {
            Some(ContentType::Image)
        },
        SniffClass::Video => Some(ContentType::Video),
        SniffClass::Audio => Some(ContentType::Audio),
        SniffClass::Other => None,
    }
}

/// The full classification of a readable file: its content type and
/// extension as ingestion decides them — the sniffed kind mapped by
/// [`spec_from_kind`] with the sniffed extension, or `Other` with the
/// path's extension when nothing was sniffed; nothing when a sniffed
/// kind maps to no supported type.
pub open spec fn spec_classification(bytes: Seq<u8>, path: Seq<char>) -> Option<
    (ContentType, Option<Seq<char>>),
> {
    match sniff_of(bytes) {
        Some(k) => match spec_from_kind(k) {
            Some(ct) => Some((ct, Some(k.extension))),
            None => None,
        },
        None => Some((ContentType::Other, crate::directory::spec_extension(path))),
    }
}

impl ContentType {
    /// Classifies a sniffed kind; a kind that maps to nothing supported
    /// is rejected.
    pub fn from_kind(kind: &SniffedKind) -> (r: Result<ContentType, FocError>)
        ensures
            r is Ok <==> spec_from_kind(kind@) is Some,
            r is Ok ==> Some(r->Ok_0) == spec_from_kind(kind@),
            r is Err ==> r->Err_0 is Classification,
    {
        match kind.class {
            SniffClass::Image => {
                if crate::text::str_eq(kind.mime.as_str(), "image/gif") {
                    Ok(ContentType::Gif)
                } else {
                    Ok(ContentType::Image)
                }
            },
            SniffClass::Video => Ok(ContentType::Video),
            SniffClass::Audio => Ok(ContentType::Audio),
            SniffClass::Other => Err(
                FocError::Classification(String::from_str("Unsupported file extension")),
            ),
        }
    }
}

} // verus!
