use typst_studio::images::{
    build_metadata, generate_next_id, parse_metadata, sort_images_by_id, AllocError, ImageMetadata,
};

#[test]
fn first_identifier_is_001() {
    let (next, id) = generate_next_id(0).unwrap();
    assert_eq!(next, 1);
    assert_eq!(id, "001");
}

#[test]
fn identifiers_are_zero_padded() {
    assert_eq!(generate_next_id(7).unwrap().1, "008");
    assert_eq!(generate_next_id(41).unwrap().1, "042");
    assert_eq!(generate_next_id(122).unwrap().1, "123");
    assert_eq!(generate_next_id(998).unwrap().1, "999");
}

#[test]
fn identifier_space_is_exhausted_at_999() {
    let r = generate_next_id(999);
    assert!(matches!(r, Err(AllocError::LimitReached)));
    assert_eq!(r.unwrap_err().message(), "Maximum image limit reached (999)");
}

#[test]
fn metadata_record_has_the_exact_shape() {
    let s = build_metadata("001", "cat.png", "data:image/png;base64,abc", 42);
    assert_eq!(
        s,
        "{\"id\":\"001\",\"filename\":\"cat.png\",\"data\":\"data:image/png;base64,abc\",\"timestamp\":42}"
    );
}

#[test]
fn metadata_round_trips() {
    let s = build_metadata("017", "photo holiday.jpg", "data:image/jpeg;base64,/9j/4A==", 1700000000);
    let m = parse_metadata(&s).unwrap();
    assert_eq!(m.id, "017");
    assert_eq!(m.filename, "photo holiday.jpg");
    assert_eq!(m.data, "data:image/jpeg;base64,/9j/4A==");
    assert_eq!(m.timestamp, 1700000000);
}

#[test]
fn metadata_round_trips_with_empty_fields_and_zero_time() {
    let s = build_metadata("", "", "", 0);
    let m = parse_metadata(&s).unwrap();
    assert_eq!(m.id, "");
    assert_eq!(m.filename, "");
    assert_eq!(m.data, "");
    assert_eq!(m.timestamp, 0);
}

#[test]
fn malformed_metadata_is_rejected() {
    assert!(parse_metadata("").is_none());
    assert!(parse_metadata("not a record").is_none());
    assert!(parse_metadata("{\"id\":\"001\"").is_none());
    assert!(parse_metadata("{\"id\":\"001\",\"filename\":\"f\",\"data\":\"d\",\"timestamp\":}").is_none());
    // Non-canonical numbers are not records this format writes.
    assert!(
        parse_metadata("{\"id\":\"a\",\"filename\":\"f\",\"data\":\"d\",\"timestamp\":007}").is_none()
    );
    // Trailing text is rejected.
    assert!(
        parse_metadata("{\"id\":\"a\",\"filename\":\"f\",\"data\":\"d\",\"timestamp\":1}x").is_none()
    );
}

fn meta(id: &str) -> ImageMetadata {
    ImageMetadata {
        id: String::from(id),
        filename: String::from("f.png"),
        data: String::from("d"),
        timestamp: 1,
    }
}

#[test]
fn images_list_in_identifier_order() {
    let items = vec![meta("010"), meta("002"), meta("001"), meta("100")];
    let sorted = sort_images_by_id(items);
    let ids: Vec<&str> = sorted.iter().map(|m| m.id.as_str()).collect();
    assert_eq!(ids, vec!["001", "002", "010", "100"]);
}

#[test]
fn sorting_keeps_duplicates() {
    let items = vec![meta("002"), meta("001"), meta("002")];
    let sorted = sort_images_by_id(items);
    let ids: Vec<&str> = sorted.iter().map(|m| m.id.as_str()).collect();
    assert_eq!(ids, vec!["001", "002", "002"]);
}
