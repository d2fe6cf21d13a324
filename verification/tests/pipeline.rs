use voter::digits::u64_to_dec;
use voter::hashing::content_key;
use voter::naming::{classify_name, raw_file_name, rendition_file_name, ExtDecision};
use voter::transcode::render;
use voter::Error;

// A one-pixel grayscale PNG, bytes spelled out so the test owns its input.
fn tiny_png() -> Vec<u8> {
    vec![
        137, 80, 78, 71, 13, 10, 26, 10, 0, 0, 0, 13, 73, 72, 68, 82, 0, 0, 0, 1, 0, 0, 0, 1, 8,
        0, 0, 0, 0, 58, 126, 155, 85, 0, 0, 0, 10, 73, 68, 65, 84, 120, 156, 99, 104, 0, 0, 0,
        130, 0, 129, 119, 205, 114, 182, 0, 0, 0, 0, 73, 69, 78, 68, 174, 66, 96, 130,
    ]
}

#[test]
fn decimal_rendering_is_exact() {
    assert_eq!(u64_to_dec(0), "0");
    assert_eq!(u64_to_dec(7), "7");
    assert_eq!(u64_to_dec(10), "10");
    assert_eq!(u64_to_dec(1_234_567_890_123_456_789), "1234567890123456789");
    assert_eq!(u64_to_dec(u64::MAX), "18446744073709551615");
}

#[test]
fn content_key_matches_the_reference_vectors() {
    // the 64-bit hash of nothing at seed zero, as the C implementation gives it
    let (h, s) = content_key(&[]);
    assert_eq!(h, 0xef46_db37_51d8_e999);
    assert_eq!(s, "17241709254077376921");
    let (h, _) = content_key(&[42]);
    assert_eq!(h, 0x0a9e_dece_beb0_3ae4);
    let (h, _) = content_key(b"Hello, world!\0");
    assert_eq!(h, 0x7b06_c531_ea43_e89f);
}

#[test]
fn content_key_is_deterministic() {
    let payload = b"the same bytes";
    let (h1, s1) = content_key(payload);
    let (h2, s2) = content_key(payload);
    assert_eq!(h1, h2);
    assert_eq!(s1, s2);
}

#[test]
fn extension_allow_list_is_case_insensitive() {
    assert_eq!(classify_name("photo.jpg"), ExtDecision::Jpg);
    assert_eq!(classify_name("photo.JPG"), ExtDecision::Jpg);
    assert_eq!(classify_name("photo.JpEg"), ExtDecision::Jpeg);
    assert_eq!(classify_name("photo.jpeg"), ExtDecision::Jpeg);
    assert_eq!(classify_name("a.b.JPEG"), ExtDecision::Jpeg);
}

#[test]
fn extension_rejections() {
    assert_eq!(classify_name("archive.png"), ExtDecision::Unsupported);
    assert_eq!(classify_name("archive.tar.gz"), ExtDecision::Unsupported);
    assert_eq!(classify_name("noextension"), ExtDecision::NoExtension);
    assert_eq!(classify_name(".hidden"), ExtDecision::NoExtension);
    assert_eq!(classify_name(""), ExtDecision::NoExtension);
    assert_eq!(classify_name("trailing."), ExtDecision::Unsupported);
}

#[test]
fn canonical_names_are_keyed_by_the_fingerprint() {
    assert_eq!(raw_file_name(7, ExtDecision::Jpg), Some("7.jpg".to_string()));
    assert_eq!(
        raw_file_name(17241709254077376921, ExtDecision::Jpeg),
        Some("17241709254077376921.jpeg".to_string())
    );
    assert_eq!(raw_file_name(7, ExtDecision::Unsupported), None);
    assert_eq!(raw_file_name(7, ExtDecision::NoExtension), None);
    assert_eq!(rendition_file_name(7), "7.jpg");
    assert_eq!(
        rendition_file_name(17241709254077376921),
        "17241709254077376921.jpg"
    );
}

#[test]
fn render_rejects_undecodable_bytes() {
    assert_eq!(render(b"not an image at all"), Err(Error::DecodeError));
    assert_eq!(render(&[]), Err(Error::DecodeError));
}

#[test]
fn render_is_a_function_of_the_bytes() {
    let first = render(&tiny_png()).expect("a valid png decodes");
    let second = render(&tiny_png()).expect("a valid png decodes");
    assert_eq!(first, second);
}

#[test]
fn render_produces_a_jpeg_rendition() {
    let rendition = render(&tiny_png()).expect("a valid png decodes");
    // the rendition is a JPEG payload, not the input handed back
    assert!(rendition.len() > 2);
    assert_eq!(&rendition[0..2], &[0xFF, 0xD8]);
    assert_ne!(rendition, tiny_png());
}
