use redactor::secret::{decode, EncodedSecret};

#[test]
fn base64() {
    let raw = b"base64:aGVsbG8=".to_vec();
    assert_eq!(b"hello".to_vec(), decode(&raw).unwrap());
}

#[test]
fn ascii() {
    let raw = b"ascii:hello".to_vec();
    assert_eq!(b"hello".to_vec(), decode(&raw).unwrap());
}

#[test]
fn ascii_untagged() {
    let raw = b"hello".to_vec();
    assert_eq!(b"hello".to_vec(), decode(&raw).unwrap());
}

#[test]
fn empty() {
    let raw = b"".to_vec();
    assert_eq!(None, decode(&raw));
}

#[test]
fn unknown_tag_is_rejected() {
    let raw = b"hex:00ff".to_vec();
    assert_eq!(None, decode(&raw));
}

#[test]
fn malformed_base64_is_rejected() {
    let raw = b"base64:!!!".to_vec();
    assert_eq!(None, decode(&raw));
}

#[test]
fn base64_decodes_binary_bytes() {
    let raw = b"base64:AAEC".to_vec();
    assert_eq!(vec![0u8, 1, 2], decode(&raw).unwrap());
}

#[test]
fn tagged_value_stops_at_second_colon() {
    let raw = b"ascii:he:llo".to_vec();
    assert_eq!(b"he".to_vec(), decode(&raw).unwrap());
}

#[test]
fn tagged_entry_distinguishes_bad_base64_from_unknown_tag() {
    let raw = b"base64:!!!".to_vec();
    let entry = EncodedSecret::new(&raw);
    assert!(entry.is_some());
    assert_eq!(None, entry.unwrap().decode());
}
