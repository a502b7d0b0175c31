use focular::thumbnail::{generate_thumbnail, render_thumbnail, ThumbFormat};

fn tiny_png() -> Vec<u8> {
    let img = image::RgbaImage::from_pixel(16, 16, image::Rgba([10, 120, 40, 255]));
    let mut buf = std::io::Cursor::new(Vec::new());
    image::DynamicImage::ImageRgba8(img)
        .write_to(&mut buf, image::ImageFormat::Png)
        .unwrap();
    buf.into_inner()
}

#[test]
fn gif_extension_is_skipped_without_error() {
    let r = generate_thumbnail(&Some("gif".to_string()), &b"not even image data".to_vec());
    assert!(matches!(r, Ok(None)));
}

#[test]
fn unsupported_extension_is_a_thumbnail_error() {
    let err = generate_thumbnail(&Some("tiff".to_string()), &tiny_png()).unwrap_err();
    assert_eq!(err.error_code(), 2);
}

#[test]
fn missing_extension_is_a_thumbnail_error() {
    let err = generate_thumbnail(&None, &tiny_png()).unwrap_err();
    assert_eq!(err.error_code(), 2);
}

#[test]
fn png_extension_renders_a_thumbnail() {
    let r = generate_thumbnail(&Some("png".to_string()), &tiny_png()).unwrap();
    let img = r.unwrap();
    assert!(!img.png.is_empty());
    assert!(img.width > 0 && img.height > 0);
    // The artifact decodes as a real PNG again.
    let reloaded = image::load_from_memory_with_format(&img.png, image::ImageFormat::Png).unwrap();
    assert_eq!(reloaded.width() as i32, img.width);
    assert_eq!(reloaded.height() as i32, img.height);
}

#[test]
fn webp_extension_is_routed_to_the_png_decoder() {
    // The dispatch table routes `webp` to the PNG decoder, so an actual
    // PNG payload under a webp extension renders.
    let r = generate_thumbnail(&Some("webp".to_string()), &tiny_png()).unwrap();
    assert!(r.is_some());
}

#[test]
fn undecodable_bytes_fail_with_a_thumbnail_error() {
    let err = render_thumbnail(&b"garbage".to_vec(), ThumbFormat::Png).unwrap_err();
    assert_eq!(err.error_code(), 2);
}

#[test]
fn jpeg_payload_renders_under_jpg_extension() {
    let img = image::RgbImage::from_pixel(8, 8, image::Rgb([1, 2, 3]));
    let mut buf = std::io::Cursor::new(Vec::new());
    image::DynamicImage::ImageRgb8(img)
        .write_to(&mut buf, image::ImageFormat::Jpeg)
        .unwrap();
    let jpeg = buf.into_inner();
    let r = generate_thumbnail(&Some("jpg".to_string()), &jpeg).unwrap();
    assert!(r.is_some());
}
