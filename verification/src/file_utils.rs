//! Best-effort attribute extraction: pixel dimensions for images and
//! videos, duration for audio. Extraction never fails the caller — a
//! value that cannot be read is simply absent.

use vstd::prelude::*;
use crate::metadata::ContentType;

verus! {

/// The pixel dimensions an image buffer's header yields, if it parses:
/// a function of the bytes alone.
pub uninterp spec fn img_dims_of(bytes: Seq<u8>) -> Option<(u32, u32)>;

/// What probing a media container yields: pixel dimensions when the
/// bytes parse as video, duration in whole seconds when they parse as
/// audio (a missing duration reads as zero), nothing otherwise. A
/// function of the bytes alone.
pub uninterp spec fn probe_of(bytes: Seq<u8>) -> (Option<(u32, u32)>, Option<u64>);

/// Relies on image's ImageReader: best-effort pixel dimensions of an
/// image buffer, read from its header; the result depends on the bytes
/// alone.
#[verifier::external_body]
fn image_dimensions_of(bytes: &Vec<u8>) -> (r: Option<(u32, u32)>)
    ensures
        r == img_dims_of(bytes@),
{
    let cursor = std::io::Cursor::new(bytes.as_slice());
    let reader = image::ImageReader::new(cursor).with_guessed_format().ok()?;
    reader.into_dimensions().ok()
}

/// Relies on audio-video-metadata's get_format_from_slice: best-effort
/// container metadata of a media buffer; the result depends on the
/// bytes alone.
#[verifier::external_body]
fn probe_media(bytes: &Vec<u8>) -> (r: (Option<(u32, u32)>, Option<u64>))
    ensures
        r == probe_of(bytes@),
{
    match audio_video_metadata::get_format_from_slice(bytes.as_slice()) {
        Ok(audio_video_metadata::Metadata::Video(m)) => {
            (Some((m.dimensions.width, m.dimensions.height)), None)
        },
        Ok(audio_video_metadata::Metadata::Audio(m)) => {
            (None, Some(m.duration.unwrap_or_default().as_secs()))
        },
        Err(_) => (None, None),
    }
}

/// A pixel count narrowed to the record's field type; an out-of-range
/// value reads as unknown.
pub open spec fn spec_narrow_u32(v: u32) -> Option<i32> {
    if v <= 0x7fff_ffff {
        Some(v as i32)
    } else {
        None
    }
}

/// A second count narrowed the same way.
pub open spec fn spec_narrow_u64(v: u64) -> Option<i32> {
    if v <= 0x7fff_ffff {
        Some(v as i32)
    } else {
        None
    }
}

/// A dimension pair narrowed component-wise; it survives only whole.
pub open spec fn spec_narrow_dims(d: Option<(u32, u32)>) -> Option<(i32, i32)> {
    match d {
        Some((w, h)) => match (spec_narrow_u32(w), spec_narrow_u32(h)) {
            (Some(wi), Some(hi)) => Some((wi, hi)),
            _ => None,
        },
        None => None,
    }
}

/// The duration a probe yields, narrowed.
pub open spec fn spec_narrow_duration(d: Option<u64>) -> Option<i32> {
    match d {
        Some(v) => spec_narrow_u64(v),
        None => None,
    }
}

fn narrow_u32(v: u32) -> (r: Option<i32>)
    ensures
        r == spec_narrow_u32(v),
{
    if v <= 0x7fff_ffff {
        Some(v as i32)
    } else {
        None
    }
}

fn narrow_u64(v: u64) -> (r: Option<i32>)
    ensures
        r == spec_narrow_u64(v),
{
    if v <= 0x7fff_ffff {
        Some(v as i32)
    } else {
        None
    }
}

/// The optional attributes extraction yields for one record.
pub struct Attributes {
    pub width: Option<i32>,
    pub height: Option<i32>,
    pub duration: Option<i32>,
}

/// Best-effort dimensions of an image buffer: the header's pixel
/// dimensions when the bytes parse as a supported image, absent on any
/// failure; never an error.
pub fn get_image_dimensions(bytes: &Vec<u8>) -> (r: Option<(i32, i32)>)
    ensures
        r == spec_narrow_dims(img_dims_of(bytes@)),
{
    match image_dimensions_of(bytes) {
        Some((w, h)) => match (narrow_u32(w), narrow_u32(h)) {
            (Some(wi), Some(hi)) => Some((wi, hi)),
            _ => None,
        },
        None => None,
    }
}

/// Best-effort dimensions of a video buffer: the container's video
/// dimensions when the bytes parse as video, absent on any failure;
/// never an error.
pub fn get_video_dimensions(bytes: &Vec<u8>) -> (r: Option<(i32, i32)>)
    ensures
        r == spec_narrow_dims(probe_of(bytes@).0),
{
    let (dims, _) = probe_media(bytes);
    match dims {
        Some((w, h)) => match (narrow_u32(w), narrow_u32(h)) {
            (Some(wi), Some(hi)) => Some((wi, hi)),
            _ => None,
        },
        None => None,
    }
}

/// Best-effort duration of an audio buffer in whole seconds, absent on
/// any failure; never an error.
pub fn get_duration(bytes: &Vec<u8>) -> (r: Option<i32>)
    ensures
        r == spec_narrow_duration(probe_of(bytes@).1),
{
    let (_, duration) = probe_media(bytes);
    match duration {
        Some(d) => narrow_u64(d),
        None => None,
    }
}

/// What extraction yields for a content type over given bytes: images
/// and videos may get dimensions, audio may get a duration, and every
/// other kind gets nothing. The triple is (width, height, duration).
pub open spec fn spec_attributes(content_type: ContentType, bytes: Seq<u8>) -> (
    Option<i32>,
    Option<i32>,
    Option<i32>,
) {
    match content_type {
        ContentType::Image => match spec_narrow_dims(img_dims_of(bytes)) {
            Some((w, h)) => (Some(w), Some(h), None),
            None => (None, None, None),
        },
        ContentType::Video => match spec_narrow_dims(probe_of(bytes).0) {
            Some((w, h)) => (Some(w), Some(h), None),
            None => (None, None, None),
        },
        ContentType::Audio => (None, None, spec_narrow_duration(probe_of(bytes).1)),
        _ => (None, None, None),
    }
}

/// Dimension and duration extraction, dispatched by content type.
/// Extraction is best-effort and never errs.
pub fn extract_attributes(content_type: &ContentType, bytes: &Vec<u8>) -> (r: Attributes)
    ensures
        (r.width, r.height, r.duration) == spec_attributes(*content_type, bytes@),
        r.width is Some <==> r.height is Some,
        !(content_type is Image || content_type is Video) ==> r.width is None && r.height is None,
        !(content_type is Audio) ==> r.duration is None,
{
    let dims: Option<(i32, i32)> = match content_type {
        ContentType::Image => get_image_dimensions(bytes),
        ContentType::Video => get_video_dimensions(bytes),
        _ => None,
    };
    let duration: Option<i32> = match content_type {
        ContentType::Audio => get_duration(bytes),
        _ => None,
    };
    match dims {
        Some((w, h)) => Attributes { width: Some(w), height: Some(h), duration },
        None => Attributes { width: None, height: None, duration },
    }
}

} // verus!
