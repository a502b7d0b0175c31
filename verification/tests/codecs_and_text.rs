use focular::directory::{extension_from_path, file_stem, Dir};
use focular::file_utils::{extract_attributes, get_duration, get_video_dimensions};
use focular::fingerprint::{fingerprint_bytes, to_hex};
use focular::foc_error::FocError;
use focular::metadata::{tags_to_text, text_to_tags, ContentType, Status};
use focular::text::remove_all_extra_whitespace;
use focular::web_extension::{frame_message, to_byte_array, to_u32, Command};

#[test]
fn whitespace_collapses_to_single_spaces() {
    assert_eq!(remove_all_extra_whitespace("  sunset   beach "), "sunset beach");
    assert_eq!(remove_all_extra_whitespace("a\t\tb\nc"), "a b c");
    assert_eq!(remove_all_extra_whitespace("plain"), "plain");
    assert_eq!(remove_all_extra_whitespace("   "), "");
    assert_eq!(remove_all_extra_whitespace(""), "");
}

#[test]
fn fingerprint_is_deterministic_and_discriminating() {
    let a1 = fingerprint_bytes(&b"same bytes".to_vec());
    let a2 = fingerprint_bytes(&b"same bytes".to_vec());
    let b = fingerprint_bytes(&b"other bytes".to_vec());
    assert_eq!(a1, a2);
    assert_ne!(a1, b);
}

#[test]
fn fingerprint_of_empty_content_is_the_known_digest() {
    let fp = fingerprint_bytes(&Vec::new());
    assert_eq!(fp, "e3b0c44298fc1c149afbf4c8996fb92427ae41e4649b934ca495991b7852b855");
}

#[test]
fn hex_rendering_is_fixed_width() {
    assert_eq!(to_hex(&vec![0x00, 0x0f, 0xa5]), "000fa5");
    assert_eq!(to_hex(&Vec::new()), "");
}

#[test]
fn length_prefix_round_trips() {
    for v in [0u32, 1, 255, 256, 65535, 1048576, u32::MAX] {
        assert_eq!(to_u32(to_byte_array(v)), v);
    }
    assert_eq!(to_byte_array(0x0403_0201), [1, 2, 3, 4]);
}

#[test]
fn framing_prefixes_the_length() {
    let framed = frame_message(&b"hello".to_vec()).unwrap();
    assert_eq!(&framed[..4], &[5, 0, 0, 0]);
    assert_eq!(&framed[4..], b"hello");
}

#[test]
fn oversized_message_is_refused() {
    let big = vec![0u8; 0x100001];
    let err = frame_message(&big).unwrap_err();
    assert_eq!(err.error_code(), 1);
}

#[test]
fn from_string() {
    let c = Command::from_string("saveUrl");
    assert!(matches!(c, Command::SaveUrl));
}

#[test]
fn content_type_names_round_trip() {
    for (ct, name) in [
        (ContentType::Image, "Image"),
        (ContentType::Gif, "Gif"),
        (ContentType::Video, "Video"),
        (ContentType::Audio, "Audio"),
        (ContentType::Link, "Link"),
        (ContentType::Other, "Other"),
    ] {
        assert_eq!(ct.to_string(), name);
        assert_eq!(ContentType::from_string(name).unwrap(), ct);
    }
    let err = ContentType::from_string("Webcomic").unwrap_err();
    assert_eq!(err.error_code(), 1);
}

#[test]
fn status_names_round_trip() {
    for (s, name) in [
        (Status::Valid, "Valid"),
        (Status::Deleted, "Deleted"),
        (Status::Duplicate, "Duplicate"),
    ] {
        assert_eq!(s.to_string(), name);
        assert_eq!(Status::from_string(name).unwrap(), s);
    }
    assert!(Status::from_string("Lost").is_err());
}

#[test]
fn tags_round_trip_through_their_stored_text() {
    let tags = Some(vec!["alpha".to_string(), "beta".to_string(), "gamma".to_string()]);
    let text = tags_to_text(&tags);
    assert_eq!(text.as_deref(), Some("alpha;beta;gamma"));
    assert_eq!(text_to_tags(&text), tags);

    assert_eq!(tags_to_text(&None), None);
    assert_eq!(text_to_tags(&None), None);
    assert_eq!(text_to_tags(&Some(String::new())), None);
    assert_eq!(
        text_to_tags(&Some("solo".to_string())),
        Some(vec!["solo".to_string()])
    );
}

#[test]
fn path_stems_and_extensions() {
    assert_eq!(file_stem("/media/photos/Sunset Beach.png"), "Sunset Beach");
    assert_eq!(extension_from_path("/media/photos/Sunset Beach.png").as_deref(), Some("png"));
    assert_eq!(file_stem("archive.tar.gz"), "archive.tar");
    assert_eq!(extension_from_path("archive.tar.gz").as_deref(), Some("gz"));
    assert_eq!(file_stem(".bashrc"), ".bashrc");
    assert_eq!(extension_from_path(".bashrc"), None);
    assert_eq!(file_stem("noext"), "noext");
    assert_eq!(extension_from_path("noext"), None);
    assert_eq!(file_stem("C:\\pictures\\cat.jpg"), "cat");
    assert_eq!(extension_from_path("C:\\pictures\\cat.jpg").as_deref(), Some("jpg"));
}

#[test]
fn error_codes_are_stable_and_distinct() {
    let errors = [
        FocError::Classification("c".to_string()),
        FocError::Extension("e".to_string()),
        FocError::Thumbnail("t".to_string()),
        FocError::Io("i".to_string()),
        FocError::Index("x".to_string()),
        FocError::Store("s".to_string()),
    ];
    let codes: Vec<i32> = errors.iter().map(|e| e.error_code()).collect();
    assert_eq!(codes, vec![0, 1, 2, 3, 4, 5]);
    assert_eq!(errors[0].description(), "c");
}

#[test]
fn directory_names() {
    assert_eq!(Dir::Root.to_string(), "Focular");
    assert_eq!(Dir::Data.to_string(), "data");
    assert_eq!(Dir::Index.to_string(), "index");
    assert_eq!(Dir::Thumbnails.to_string(), "thumbnails");
    assert_eq!(Dir::Config.to_string(), "config");
}

#[test]
fn first_run_preferences_are_empty() {
    let p = focular::preferences::Preferences::first_run();
    assert!(p.recent_searches.is_empty());
    assert!(!p.show_file_extensions);
}

#[test]
fn sniffed_kinds_map_to_content_types() {
    let png_kind = focular::classify::SniffedKind {
        class: focular::classify::SniffClass::Image,
        mime: "image/png".to_string(),
        extension: "png".to_string(),
    };
    assert_eq!(ContentType::from_kind(&png_kind).unwrap(), ContentType::Image);

    let video_kind = focular::classify::SniffedKind {
        class: focular::classify::SniffClass::Video,
        mime: "video/mp4".to_string(),
        extension: "mp4".to_string(),
    };
    assert_eq!(ContentType::from_kind(&video_kind).unwrap(), ContentType::Video);

    let archive_kind = focular::classify::SniffedKind {
        class: focular::classify::SniffClass::Other,
        mime: "application/zip".to_string(),
        extension: "zip".to_string(),
    };
    let err = ContentType::from_kind(&archive_kind).unwrap_err();
    assert_eq!(err.error_code(), 0);
}

#[test]
fn attribute_extraction_is_best_effort_and_dispatched() {
    let garbage = b"not a media container at all".to_vec();
    // Unreadable containers yield nothing rather than an error.
    assert_eq!(get_video_dimensions(&garbage), None);
    assert_eq!(get_duration(&garbage), None);

    // A content type without dimensions or duration gets none, whatever
    // the bytes hold.
    let img = image::RgbaImage::from_pixel(4, 4, image::Rgba([9, 9, 9, 255]));
    let mut buf = std::io::Cursor::new(Vec::new());
    image::DynamicImage::ImageRgba8(img)
        .write_to(&mut buf, image::ImageFormat::Png)
        .unwrap();
    let png = buf.into_inner();
    let attrs = extract_attributes(&ContentType::Other, &png);
    assert_eq!(attrs.width, None);
    assert_eq!(attrs.height, None);
    assert_eq!(attrs.duration, None);

    // As an image the same bytes do yield header dimensions.
    let attrs = extract_attributes(&ContentType::Image, &png);
    assert_eq!(attrs.width, Some(4));
    assert_eq!(attrs.height, Some(4));
    assert_eq!(attrs.duration, None);
}

#[test]
fn gif_mime_maps_to_the_gif_content_type() {
    let kind = focular::classify::SniffedKind {
        class: focular::classify::SniffClass::Image,
        mime: "image/gif".to_string(),
        extension: "gif".to_string(),
    };
    assert_eq!(ContentType::from_kind(&kind).unwrap(), ContentType::Gif);
}
