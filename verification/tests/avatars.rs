use image::codecs::png::{CompressionType, FilterType, PngEncoder};
use image::{ExtendedColorType, ImageEncoder};
use reposcope::contributors::{avatar_data_uri, avatar_from_fetch, normalize_avatar};

/// A 3×2 RGBA picture.
fn pixels() -> Vec<u8> {
    (0..24u8).map(|i| i.wrapping_mul(37)).collect()
}

fn png(px: &[u8], compression: CompressionType, filter: FilterType) -> Vec<u8> {
    let mut out = Vec::new();
    PngEncoder::new_with_quality(&mut out, compression, filter)
        .write_image(px, 3, 2, ExtendedColorType::Rgba8)
        .unwrap();
    out
}

#[test]
fn equal_pixels_give_equal_avatar_bytes() {
    let px = pixels();
    let fast = png(&px, CompressionType::Fast, FilterType::NoFilter);
    let best = png(&px, CompressionType::Best, FilterType::Paeth);
    assert_ne!(fast, best, "two encodings of one picture");
    let a = normalize_avatar(&fast).unwrap();
    let b = normalize_avatar(&best).unwrap();
    assert_eq!(a, b);
    // The normalised form is the fixed-setting encoding of the pixels.
    assert_eq!(a, png(&px, CompressionType::Default, FilterType::Adaptive));
    // And it decodes back to the same pixels.
    let back = image::load_from_memory(&a).unwrap().into_rgba8();
    assert_eq!((back.width(), back.height()), (3, 2));
    assert_eq!(back.into_raw(), px);
}

#[test]
fn other_formats_become_png_and_junk_becomes_placeholder() {
    // A grey 2×2 picture as a GIF, whatever the reply's media type says.
    let mut gif = Vec::new();
    {
        let mut enc = image::codecs::gif::GifEncoder::new(&mut gif);
        enc.encode(&[128u8, 128, 128, 255].repeat(4), 2, 2, ExtendedColorType::Rgba8).unwrap();
    }
    let uri = avatar_from_fetch(&Ok(("image/gif".to_string(), gif.clone()))).unwrap();
    let normalized = normalize_avatar(&gif).unwrap();
    assert_eq!(uri, avatar_data_uri("image/png", &normalized));
    assert!(uri.starts_with("data:image/png;base64,iVBORw0KGgo"), "{uri}");
    // One byte, or a PNG signature with nothing behind it: no image.
    assert_eq!(normalize_avatar(&[0x89]), None);
    assert_eq!(avatar_from_fetch(&Ok(("image/png".to_string(), vec![0x89]))), None);
    assert_eq!(
        avatar_from_fetch(&Ok(("image/png".to_string(), b"\x89PNG-fake-image-bytes".to_vec()))),
        None
    );
}
