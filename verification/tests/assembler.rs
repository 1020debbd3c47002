use typst_studio::assemble::{assemble, AssembleError, ImageEntry};

fn entry(id: &str, payload: &str) -> ImageEntry {
    ImageEntry { id: String::from(id), payload: String::from(payload) }
}

#[test]
fn whitespace_only_source_fails_before_anything_else() {
    let images: Vec<ImageEntry> = Vec::new();
    let r = assemble("   ", None, &images);
    assert!(matches!(r, Err(AssembleError::EmptySource)));
}

#[test]
fn empty_source_fails() {
    let images: Vec<ImageEntry> = Vec::new();
    assert!(matches!(assemble("", None, &images), Err(AssembleError::EmptySource)));
    assert!(matches!(assemble("\n\t  \n", None, &images), Err(AssembleError::EmptySource)));
}

#[test]
fn invalid_image_is_skipped_and_valid_one_kept() {
    let images = vec![
        entry("001", "!!!not-base64!!!"),
        entry("002", "aGVsbG8="),
    ];
    let (unit, skipped) = assemble("= Title", None, &images).unwrap();
    // Exactly one image blob: the valid one, decoded, under its identifier.
    assert_eq!(unit.blobs.len(), 1);
    assert_eq!(unit.blobs[0].name, "002");
    assert_eq!(unit.blobs[0].bytes, b"hello".to_vec());
    // The invalid one appears in the skipped list and nowhere else.
    assert_eq!(skipped, vec![String::from("001")]);
}

#[test]
fn data_url_header_is_stripped_before_decoding() {
    let images = vec![entry("007", "data:image/png;base64,aGVsbG8=")];
    let (unit, skipped) = assemble("x", None, &images).unwrap();
    assert_eq!(unit.blobs.len(), 1);
    assert_eq!(unit.blobs[0].bytes, b"hello".to_vec());
    assert!(skipped.is_empty());
}

#[test]
fn payload_without_comma_is_decoded_whole() {
    let images = vec![entry("001", "d29ybGQ=")];
    let (unit, _) = assemble("x", None, &images).unwrap();
    assert_eq!(unit.blobs[0].bytes, b"world".to_vec());
}

#[test]
fn bibliography_becomes_blob_under_reserved_name() {
    let images: Vec<ImageEntry> = Vec::new();
    let (unit, _) = assemble("x", Some("key:\n  type: web\n"), &images).unwrap();
    assert_eq!(unit.blobs.len(), 1);
    assert_eq!(unit.blobs[0].name, "refs.yml");
    assert_eq!(unit.blobs[0].bytes, b"key:\n  type: web\n".to_vec());
}

#[test]
fn blank_bibliography_contributes_nothing() {
    let images: Vec<ImageEntry> = Vec::new();
    let (unit, _) = assemble("x", Some("   \n"), &images).unwrap();
    assert!(unit.blobs.is_empty());
    let (unit2, _) = assemble("x", None, &images).unwrap();
    assert!(unit2.blobs.is_empty());
}

#[test]
fn bibliography_precedes_image_blobs() {
    let images = vec![entry("003", "aGk=")];
    let (unit, _) = assemble("x", Some("refs"), &images).unwrap();
    assert_eq!(unit.blobs.len(), 2);
    assert_eq!(unit.blobs[0].name, "refs.yml");
    assert_eq!(unit.blobs[1].name, "003");
    assert_eq!(unit.blobs[1].bytes, b"hi".to_vec());
}

#[test]
fn source_is_kept_verbatim() {
    let images: Vec<ImageEntry> = Vec::new();
    let (unit, _) = assemble("= Hello\nworld", None, &images).unwrap();
    assert_eq!(unit.source, "= Hello\nworld");
}
