use cell_data_generator::emitter::{emit, emit_with_digest, join_lines, EmittedRecord};
use cell_data_generator::error::EncodeError;

#[test]
fn fields_are_lowercase_hex() {
    let fields = emit(105, b"", &[0xde, 0xad, 0x0b], &[0x00, 0xff, 0x10], 32000).unwrap();
    assert_eq!(fields.category_hex, "69000000");
    assert_eq!(
        fields.content_hash_hex,
        "44f4c69744d5f8c55d642062949dcae49bc4e7ef43d388c5a12f42b5633d163e"
    );
    assert_eq!(fields.action_witness_hex, "dead0b");
    assert_eq!(fields.payload_witness_hex, "00ff10");
}

#[test]
fn category_is_little_endian() {
    let fields = emit_with_digest(0x0102_0304, &[0u8; 32], &[], &[], 0).unwrap();
    assert_eq!(fields.category_hex, "04030201");
    assert_eq!(fields.content_hash_hex, "00".repeat(32));
    assert_eq!(fields.action_witness_hex, "");
    assert_eq!(fields.payload_witness_hex, "");
    assert_eq!(emit(10000, b"a", &[], &[], 10).unwrap().category_hex, "10270000");
}

#[test]
fn content_hash_is_the_digest_of_the_payload() {
    let fields = emit(1, b"a", &[], &[], 10).unwrap();
    assert_eq!(
        fields.content_hash_hex,
        "5afe99e12616363be7e428c91cd1c381e6e8f3a69c172aeb1ef23d9fe056a01e"
    );
}

#[test]
fn line_has_four_prefixed_fields() {
    let fields = emit(105, b"", &[0xab], &[0xcd, 0xef], 32000).unwrap();
    assert_eq!(
        fields.render(),
        "0x69000000 0x44f4c69744d5f8c55d642062949dcae49bc4e7ef43d388c5a12f42b5633d163e 0xab 0xcdef"
    );
    let bare = EmittedRecord {
        category_hex: String::new(),
        content_hash_hex: String::new(),
        action_witness_hex: String::new(),
        payload_witness_hex: String::new(),
    };
    assert_eq!(bare.render(), "0x 0x 0x 0x");
}

#[test]
fn same_input_gives_same_output() {
    let one = emit(7, b"payload", &[1, 2, 3], &[4, 5, 6], 100).unwrap();
    let other = emit(7, b"payload", &[1, 2, 3], &[4, 5, 6], 100).unwrap();
    assert_eq!(one, other);
    assert_eq!(one.render(), other.render());
}

#[test]
fn witness_over_the_limit_is_rejected() {
    assert_eq!(
        emit(7, b"payload", &[1], &[0u8; 11], 10),
        Err(EncodeError::SizeLimitExceeded { total: 11, limit: 10 })
    );
    assert!(emit(7, b"payload", &[1], &[0u8; 10], 10).is_ok());
    assert!(emit(7, b"payload", &[0u8; 50], &[0u8; 10], 10).is_ok());
}

#[test]
fn lines_are_joined_by_commas() {
    assert_eq!(join_lines(&Vec::new()), "");
    assert_eq!(join_lines(&vec!["one".to_string()]), "one");
    assert_eq!(
        join_lines(&vec!["one".to_string(), "two".to_string(), "three".to_string()]),
        "one,two,three"
    );
    assert_eq!(join_lines(&vec![String::new(), String::new()]), ",");
}
