//! Building index rows from file content: digest, MIME classification
//! and timestamp pass-through, with the real digest and MIME crates.
use puppydrive::scan::build_location;

fn hex(bytes: &[u8]) -> String {
    let mut s = String::new();
    for b in bytes {
        s.push_str(&format!("{:02x}", b));
    }
    s
}

#[test]
fn digest_matches_the_published_sha256_of_abc() {
    let r = build_location("/r/abc.bin".to_string(), b"abc", 0, None, None, None);
    let h = r.hash.expect("content was hashed");
    assert_eq!(h.len(), 32);
    assert_eq!(
        hex(&h),
        "ba7816bf8f01cfea414140de5dae2223b00361a396177a9cb410ff61f20015ad"
    );
}

#[test]
fn digest_of_empty_content() {
    let r = build_location("/r/empty".to_string(), b"", 0, None, None, None);
    assert_eq!(
        hex(&r.hash.unwrap()),
        "e3b0c44298fc1c149afbf4c8996fb92427ae41e4649b934ca495991b7852b855"
    );
    assert_eq!(r.size, 0);
}

#[test]
fn content_sniffing_recognizes_png() {
    let mut data: Vec<u8> = vec![0x89, 0x50, 0x4E, 0x47, 0x0D, 0x0A, 0x1A, 0x0A];
    data.extend_from_slice(&[0u8; 64]);
    let r = build_location("/r/picture.dat".to_string(), &data, 0, None, None, None);
    assert_eq!(r.mime_type.as_deref(), Some("image/png"));
}

#[test]
fn extension_guess_is_the_fallback() {
    let r = build_location(
        "/r/notes.txt".to_string(),
        b"just some plain words",
        0,
        None,
        None,
        None,
    );
    assert_eq!(r.mime_type.as_deref(), Some("text/plain"));
}

#[test]
fn unknown_content_and_extension_yield_no_mime() {
    let r = build_location("/r/mystery".to_string(), b"odds and ends", 0, None, None, None);
    assert_eq!(r.mime_type, None);
}

#[test]
fn metadata_passes_through_unchanged() {
    let r = build_location(
        "/r/meta".to_string(),
        b"xyz",
        777,
        Some(1),
        Some(2),
        None,
    );
    assert_eq!(r.path, "/r/meta");
    assert_eq!(r.size, 3);
    assert_eq!(r.timestamp, 777);
    assert_eq!(r.created_at, Some(1));
    assert_eq!(r.modified_at, Some(2));
    assert_eq!(r.accessed_at, None);
}
