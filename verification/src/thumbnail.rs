//! Thumbnail generation for images: decoder dispatch by file extension,
//! rendering of one large PNG variant through the thumbnailer crate,
//! and the inline base64 payload path used for links.

use vstd::prelude::*;
use crate::foc_error::FocError;
use vstd::string::StrSliceExecFns;
use vstd::string::StringExecFns;

verus! {

/// The decoders the generator can hand a buffer to.
#[derive(Clone, Copy, PartialEq, Eq, Structural, Debug)]
pub enum ThumbFormat {
    Png,
    Jpeg,
    Bmp,
}

/// What the extension dispatch decides for an image.
#[derive(Clone, Copy, PartialEq, Eq, Structural, Debug)]
pub enum ThumbDecision {
    Render(ThumbFormat),
    Skip,
    Unsupported,
}

/// The generator's dispatch table: `png`, `jpg` and `bmp` go to
/// their decoders, `webp` is routed to the PNG decoder (a known quirk:
/// genuine WebP payloads will fail to decode), `gif` is skipped
/// outright, and anything else is unsupported.
pub open spec fn spec_thumb_decision(ext: Option<Seq<char>>) -> ThumbDecision {
    match ext {
        None => ThumbDecision::Unsupported,
        Some(e) => if e == "png"@ {
            ThumbDecision::Render(ThumbFormat::Png)
        } else if e == "jpg"@ {
            ThumbDecision::Render(ThumbFormat::Jpeg)
        } else if e == "bmp"@ {
            ThumbDecision::Render(ThumbFormat::Bmp)
        } else if e == "webp"@ {
            ThumbDecision::Render(ThumbFormat::Png)
        } else if e == "gif"@ {
            ThumbDecision::Skip
        } else {
            ThumbDecision::Unsupported
        },
    }
}

/// Decides which decoder, if any, an extension gets.
pub fn thumb_decision(ext: &Option<String>) -> (d: ThumbDecision)
    ensures
        d == spec_thumb_decision(
            match ext {
                Some(e) => Some(e@),
                None => None,
            },
        ),
{
    match ext {
        None => ThumbDecision::Unsupported,
        Some(e) => {
            if crate::text::str_eq(e.as_str(), "png") {
                ThumbDecision::Render(ThumbFormat::Png)
            } else if crate::text::str_eq(e.as_str(), "jpg") {
                ThumbDecision::Render(ThumbFormat::Jpeg)
            } else if crate::text::str_eq(e.as_str(), "bmp") {
                ThumbDecision::Render(ThumbFormat::Bmp)
            } else if crate::text::str_eq(e.as_str(), "webp") {
                ThumbDecision::Render(ThumbFormat::Png)
            } else if crate::text::str_eq(e.as_str(), "gif") {
                ThumbDecision::Skip
            } else {
                ThumbDecision::Unsupported
            }
        },
    }
}

/// What rendering the large thumbnail of a buffer with a given decoder
/// yields, when it succeeds: the re-encoded PNG bytes and the pixel
/// width and height. Decoding, resizing and PNG encoding are all
/// deterministic, so the outcome is a function of the buffer and the
/// decoder alone; it is absent exactly when the pipeline fails.
pub uninterp spec fn large_thumb_of(bytes: Seq<u8>, format: ThumbFormat) -> Option<
    (Seq<u8>, u32, u32),
>;

/// Relies on thumbnailer::create_thumbnails, Thumbnail::size and
/// Thumbnail::write_png: decodes the buffer with the decoder for the
/// given mime type, renders the one large (512 px bound) variant,
/// reads its pixel size and re-encodes it as PNG. The whole pipeline
/// depends on the buffer and decoder alone.
#[verifier::external_body]
fn render_large_png(bytes: &Vec<u8>, format: ThumbFormat) -> (r: Option<(Vec<u8>, u32, u32)>)
    ensures
        match r {
            Some(t) => large_thumb_of(bytes@, format) == Some((t.0@, t.1, t.2)),
            None => large_thumb_of(bytes@, format) is None,
        },
{
    let mime = match format {
        ThumbFormat::Png => mime::IMAGE_PNG,
        ThumbFormat::Jpeg => mime::IMAGE_JPEG,
        ThumbFormat::Bmp => mime::IMAGE_BMP,
    };
    let cursor = std::io::Cursor::new(bytes.as_slice());
    let mut rendered =
        thumbnailer::create_thumbnails(cursor, mime, [thumbnailer::ThumbnailSize::Large]).ok()?;
    let thumb = rendered.pop()?;
    let (w, h) = thumb.size();
    let mut buf = std::io::Cursor::new(Vec::new());
    thumb.write_png(&mut buf).ok()?;
    Some((buf.into_inner(), w, h))
}

/// A rendered thumbnail: its PNG bytes and pixel size, ready to be
/// persisted under `"<fingerprint>.png"`.
#[derive(Debug)]
pub struct ThumbnailImage {
    pub png: Vec<u8>,
    pub width: i32,
    pub height: i32,
}

/// Whether rendering with the given decoder fails on this buffer: the
/// pipeline yields nothing, or dimensions out of the record's range.
pub open spec fn spec_render_fails(bytes: Seq<u8>, format: ThumbFormat) -> bool {
    match large_thumb_of(bytes, format) {
        Some(t) => t.1 > 0x7fff_ffff || t.2 > 0x7fff_ffff,
        None => true,
    }
}

/// Renders the large PNG thumbnail of an image buffer with the given
/// decoder: the rendered bytes and pixel dimensions exactly when the
/// pipeline succeeds, a thumbnail error exactly when it does not.
pub fn render_thumbnail(bytes: &Vec<u8>, format: ThumbFormat) -> (r: Result<
    ThumbnailImage,
    FocError,
>)
    ensures
        r is Ok <==> !spec_render_fails(bytes@, format),
        r matches Ok(img) ==> (large_thumb_of(bytes@, format) matches Some(t) && img.png@ == t.0
            && img.width == t.1 as i32 && img.height == t.2 as i32),
        r is Err ==> r->Err_0 is Thumbnail,
{
    let (png, w, h) = match render_large_png(bytes, format) {
        Some(t) => t,
        None => {
            return Err(FocError::Thumbnail(String::from_str("Could not render the thumbnail")));
        },
    };
    if w > 0x7fff_ffff || h > 0x7fff_ffff {
        return Err(FocError::Thumbnail(String::from_str("Thumbnail dimensions out of range")));
    }
    Ok(ThumbnailImage { png, width: w as i32, height: h as i32 })
}

/// Whether thumbnail generation fails for an image with this extension
/// over these bytes: the extension is unsupported, or its decoder's
/// rendering pipeline fails. A skipped extension never fails.
pub open spec fn spec_thumb_gen_fails(ext: Option<Seq<char>>, bytes: Seq<u8>) -> bool {
    match spec_thumb_decision(ext) {
        ThumbDecision::Render(f) => spec_render_fails(bytes, f),
        ThumbDecision::Skip => false,
        ThumbDecision::Unsupported => true,
    }
}

/// Thumbnail generation for an image record, dispatched on its
/// extension: a skipped extension produces no thumbnail and no error,
/// an unsupported one fails with a thumbnail error, and a supported one
/// yields the rendered thumbnail exactly when its decoder's pipeline
/// succeeds.
pub fn generate_thumbnail(ext: &Option<String>, bytes: &Vec<u8>) -> (r: Result<
    Option<ThumbnailImage>,
    FocError,
>)
    ensures
        ({
            let e = match ext {
                Some(x) => Some(x@),
                None => None,
            };
            let d = spec_thumb_decision(e);
            &&& (r is Ok <==> !spec_thumb_gen_fails(e, bytes@))
            &&& (r is Err ==> r->Err_0 is Thumbnail)
            &&& (d is Skip ==> (r matches Ok(v) && v is None))
            &&& (d matches ThumbDecision::Render(f) ==> (r matches Ok(v) ==> (v matches Some(img)
                && large_thumb_of(bytes@, f) matches Some(t) && img.png@ == t.0 && img.width == t.1
                as i32 && img.height == t.2 as i32)))
        }),
{
    match thumb_decision(ext) {
        ThumbDecision::Skip => Ok(None),
        ThumbDecision::Unsupported => Err(
            FocError::Thumbnail(
                String::from_str("Unsupported image type detected while generating thumbnail"),
            ),
        ),
        ThumbDecision::Render(format) => match render_thumbnail(bytes, format) {
            Ok(img) => Ok(Some(img)),
            Err(e) => Err(e),
        },
    }
}

/// The inline payload prefix a link thumbnail must carry.
pub open spec fn spec_strip_data_png_prefix(s: Seq<char>) -> Option<Seq<char>> {
    if s.len() >= 22 && s.take(22) == ("data:image/png;base64,")@ {
        Some(s.skip(22))
    } else {
        None
    }
}

/// Strips the `data:image/png;base64,` prefix of an inline payload;
/// a payload without it yields nothing.
pub fn strip_data_png_prefix(s: &str) -> (r: Option<&str>)
    ensures
        match r {
            Some(rest) => spec_strip_data_png_prefix(s@) == Some(rest@),
            None => spec_strip_data_png_prefix(s@) is None,
        },
{
    let prefix = "data:image/png;base64,";
    proof {
        reveal_strlit("data:image/png;base64,");
        assert(prefix@.len() == 22);
    }
    let n = s.unicode_len();
    if n < 22 {
        return None;
    }
    let mut i: usize = 0;
    while i < 22
        invariant
            i <= 22,
            n == s@.len(),
            n >= 22,
            prefix@ == ("data:image/png;base64,")@,
            prefix@.len() == 22,
            forall|k: int| 0 <= k < i ==> s@[k] == prefix@[k],
        decreases 22 - i,
    {
        if s.get_char(i) != prefix.get_char(i) {
            proof {
                assert(s@.take(22)[i as int] != prefix@[i as int]);
            }
            return None;
        }
        i = i + 1;
    }
    let rest = s.substring_char(22, n);
    proof {
        assert(s@.take(22) =~= prefix@);
        assert(rest@ =~= s@.skip(22));
    }
    Some(rest)
}

/// What base64 decoding yields for a payload: a function of the text
/// alone, absent exactly when the payload is not valid base64.
pub uninterp spec fn base64_decoded(s: Seq<char>) -> Option<Seq<u8>>;

/// Relies on base64::decode: standard alphabet with padding; the
/// decoded bytes depend on the input text alone.
#[verifier::external_body]
pub(crate) fn decode_base64(s: &str) -> (r: Option<Vec<u8>>)
    ensures
        match r {
            Some(v) => base64_decoded(s@) == Some(v@),
            None => base64_decoded(s@) is None,
        },
{
    base64::decode(s).ok()
}

} // verus!
