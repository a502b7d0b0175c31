use base64::Engine;
use focular::content_manager::{FileIngest, Library};
use focular::fingerprint::fingerprint_bytes;
use focular::metadata::ContentType;

fn readable(path: &str, bytes: &[u8]) -> FileIngest {
    FileIngest { path: path.to_string(), content: Some(bytes.to_vec()) }
}

fn unreadable(path: &str) -> FileIngest {
    FileIngest { path: path.to_string(), content: None }
}

fn tiny_png() -> Vec<u8> {
    let img = image::RgbaImage::from_pixel(16, 16, image::Rgba([200, 40, 40, 255]));
    let mut buf = std::io::Cursor::new(Vec::new());
    image::DynamicImage::ImageRgba8(img)
        .write_to(&mut buf, image::ImageFormat::Png)
        .unwrap();
    buf.into_inner()
}

#[test]
fn ingested_file_becomes_searchable() {
    let mut lib = Library::new();
    let files = vec![readable("/media/Sunset Beach.txt", b"sunset beach photo notes")];
    lib.add_files(files, 1700000000).unwrap();

    let found = lib.search_content("sunset").unwrap();
    assert_eq!(found.len(), 1);
    assert_eq!(found[0].name, "Sunset Beach");
    assert_eq!(found[0].path, "/media/Sunset Beach.txt");
    assert_eq!(found[0].timestamp_created, 1700000000);
    assert!(matches!(found[0].content_type, ContentType::Other));
    assert_eq!(found[0].extension.as_deref(), Some("txt"));
}

#[test]
fn unreadable_path_fails_the_whole_batch() {
    let mut lib = Library::new();
    let alpha = b"alpha file data".to_vec();
    let files = vec![readable("/media/alpha.txt", &alpha), unreadable("/media/beta.txt")];
    let err = lib.add_files(files, 1700000000).unwrap_err();
    // The whole call fails with an I/O error...
    assert_eq!(err.error_code(), 3);
    // ...nothing of the batch reached the index...
    assert!(lib.search_content("alpha").unwrap().is_empty());
    // ...but the record persisted before the failure is still in the
    // store: the documented store/index consistency gap.
    let fp = fingerprint_bytes(&alpha);
    let kept = lib.get_metadata_by_hashes(vec![fp]).unwrap();
    assert_eq!(kept.len(), 1);
    assert_eq!(kept[0].name, "alpha");
}

#[test]
fn png_content_is_classified_as_image() {
    let mut lib = Library::new();
    let files = vec![readable("/media/photo.png", &tiny_png())];
    lib.add_files(files, 1700000000).unwrap();
    let found = lib.search_content("photo").unwrap();
    assert_eq!(found.len(), 1);
    assert!(matches!(found[0].content_type, ContentType::Image));
    assert_eq!(found[0].extension.as_deref(), Some("png"));
    // Dimensions come from the image header, best effort.
    assert_eq!(found[0].width, Some(16));
    assert_eq!(found[0].height, Some(16));
}

#[test]
fn gif_content_is_classified_as_gif_and_skips_the_thumbnail() {
    let mut lib = Library::new();
    // A minimal GIF header is enough for classification.
    let mut gif = b"GIF89a".to_vec();
    gif.extend_from_slice(&[0x10, 0x00, 0x10, 0x00, 0x00, 0x00, 0x00, 0x3b]);
    let artifacts = lib.add_files(vec![readable("/media/anim.gif", &gif)], 1).unwrap();
    // No thumbnail is produced for a gif, and the call succeeds.
    assert!(artifacts.is_empty());
    let found = lib.search_content("anim").unwrap();
    assert_eq!(found.len(), 1);
    assert!(matches!(found[0].content_type, ContentType::Gif));
}

#[test]
fn unsupported_signature_fails_classification() {
    let mut lib = Library::new();
    // A ZIP signature sniffs as an archive, which maps to nothing
    // supported.
    let mut zip = b"PK\x03\x04".to_vec();
    zip.extend_from_slice(&[0u8; 32]);
    let err = lib.add_files(vec![readable("/media/bundle.zip", &zip)], 1).unwrap_err();
    assert_eq!(err.error_code(), 0);
    assert!(lib.search_content("bundle").unwrap().is_empty());
}

#[test]
fn failing_thumbnail_aborts_before_the_record_is_persisted() {
    let mut lib = Library::new();
    // A WebP signature classifies as an image and its extension routes
    // to the PNG decoder, which cannot decode the payload: the
    // thumbnail fails, so the file's own record is never persisted.
    let mut webp = b"RIFF".to_vec();
    webp.extend_from_slice(&[0x24, 0x00, 0x00, 0x00]);
    webp.extend_from_slice(b"WEBPVP8 ");
    webp.extend_from_slice(&[0u8; 24]);
    let good = b"a perfectly fine text file".to_vec();
    let err = lib
        .add_files(
            vec![readable("/media/good.txt", &good), readable("/media/broken.webp", &webp)],
            7,
        )
        .unwrap_err();
    assert_eq!(err.error_code(), 2);
    // The earlier file's record is persisted; the failing file's is not.
    assert!(lib.get_metadata_by_hashes(vec![fingerprint_bytes(&good)]).is_ok());
    assert!(lib.get_metadata_by_hashes(vec![fingerprint_bytes(&webp)]).is_err());
    // Nothing of the batch reached the index.
    assert!(lib.search_content("good").unwrap().is_empty());
    assert!(lib.search_content("broken").unwrap().is_empty());
}

#[test]
fn duplicate_fingerprint_is_refused_by_the_store() {
    let mut lib = Library::new();
    let bytes = b"the very same bytes";
    lib.add_files(vec![readable("/media/one.txt", bytes)], 1).unwrap();
    let err = lib.add_files(vec![readable("/media/two.txt", bytes)], 2).unwrap_err();
    assert_eq!(err.error_code(), 5);
}

#[test]
fn ingested_image_produces_a_thumbnail_artifact() {
    let mut lib = Library::new();
    let artifacts = lib.add_files(vec![readable("/media/pic.png", &tiny_png())], 1).unwrap();
    assert_eq!(artifacts.len(), 1);
    let (hash, img) = &artifacts[0];
    assert_eq!(hash, &fingerprint_bytes(&tiny_png()));
    assert!(!img.png.is_empty());
    assert!(img.width > 0 && img.height > 0);
}

#[test]
fn delete_content_removes_store_and_index() {
    let mut lib = Library::new();
    let bytes = b"forgettable";
    lib.add_files(vec![readable("/media/gone.txt", bytes)], 1).unwrap();
    let fp = fingerprint_bytes(&bytes.to_vec());
    lib.delete_content(&vec![fp.clone()]).unwrap();
    assert!(lib.search_content("gone").unwrap().is_empty());
    assert!(lib.get_metadata_by_hashes(vec![fp]).is_err());
}

#[test]
fn update_content_changes_tags_for_search() {
    let mut lib = Library::new();
    lib.add_files(vec![readable("/media/holiday.txt", b"holiday notes")], 1).unwrap();
    let mut r = lib.search_content("holiday").unwrap().remove(0);
    r.tags = Some(vec!["ocean".to_string()]);
    lib.update_content(r).unwrap();
    assert_eq!(lib.search_content("ocean").unwrap().len(), 1);

    let mut r2 = lib.search_content("holiday").unwrap().remove(0);
    r2.tags = Some(vec!["forest".to_string()]);
    lib.update_content(r2).unwrap();
    assert!(lib.search_content("ocean").unwrap().is_empty());
    assert_eq!(lib.search_content("forest").unwrap().len(), 1);
}

#[test]
fn get_all_tags_is_sorted_and_distinct() {
    let mut lib = Library::new();
    lib.add_files(
        vec![readable("/media/a.txt", b"content a"), readable("/media/b.txt", b"content b")],
        1,
    )
    .unwrap();
    let mut ra = lib.search_content("a").unwrap().remove(0);
    ra.tags = Some(vec!["zebra".to_string(), "apple".to_string()]);
    lib.update_content(ra).unwrap();
    let mut rb = lib.search_content("b").unwrap().remove(0);
    rb.tags = Some(vec!["apple".to_string(), "mango".to_string()]);
    lib.update_content(rb).unwrap();

    let tags = lib.get_all_tags();
    assert_eq!(tags, vec!["apple".to_string(), "mango".to_string(), "zebra".to_string()]);
}

#[test]
fn add_url_from_extension_ingests_a_link() {
    let mut lib = Library::new();
    let png = tiny_png();
    let payload = format!(
        "data:image/png;base64,{}",
        base64::engine::general_purpose::STANDARD.encode(&png)
    );
    let request = focular::web_extension::Request {
        name: "Rust homepage".to_string(),
        url: "https://example.org/rust".to_string(),
        image: payload,
        command: "saveUrl".to_string(),
    };
    let artifact = lib.add_url_from_extension(&request, 1700000001).unwrap();
    assert!(!artifact.png.is_empty());

    let found = lib.search_content("rust").unwrap();
    assert_eq!(found.len(), 1);
    assert!(matches!(found[0].content_type, ContentType::Link));
    assert_eq!(found[0].path, "https://example.org/rust");
    assert_eq!(found[0].width, Some(artifact.width));
    let url_bytes = b"https://example.org/rust".to_vec();
    assert_eq!(found[0].hash, fingerprint_bytes(&url_bytes));
}

#[test]
fn add_url_without_the_prefix_fails() {
    let mut lib = Library::new();
    let request = focular::web_extension::Request {
        name: "nope".to_string(),
        url: "https://example.org/x".to_string(),
        image: "iVBORw0KGgo=".to_string(),
        command: "saveUrl".to_string(),
    };
    let err = lib.add_url_from_extension(&request, 1).unwrap_err();
    assert_eq!(err.error_code(), 1);
    assert!(lib.search_content("nope").unwrap().is_empty());
}

#[test]
fn add_url_with_invalid_base64_fails() {
    let mut lib = Library::new();
    let request = focular::web_extension::Request {
        name: "nope".to_string(),
        url: "https://example.org/x".to_string(),
        image: "data:image/png;base64,@@@not base64@@@".to_string(),
        command: "saveUrl".to_string(),
    };
    let err = lib.add_url_from_extension(&request, 1).unwrap_err();
    assert_eq!(err.error_code(), 1);
}
