use cell_data_generator::error::EncodeError;
use cell_data_generator::length_prefix::{
    declared_length, encode_with_limit, prepend_molecule_like_length, u32_le_bytes,
    WITNESS_SIZE_LIMIT,
};

#[test]
fn empty_payload_is_four_bytes() {
    assert_eq!(prepend_molecule_like_length(Vec::new()), Ok(vec![4, 0, 0, 0]));
}

#[test]
fn header_counts_itself() {
    let out = prepend_molecule_like_length(vec![0xaa, 0xbb, 0xcc]).unwrap();
    assert_eq!(out, vec![7, 0, 0, 0, 0xaa, 0xbb, 0xcc]);
    assert_eq!(declared_length(&out), Some(out.len() as u32));
}

#[test]
fn header_is_little_endian() {
    let out = encode_with_limit(vec![1u8; 300], 1000).unwrap();
    assert_eq!(&out[..4], &[0x30, 0x01, 0x00, 0x00]);
    assert_eq!(out.len(), 304);
    assert_eq!(declared_length(&out), Some(304));
    assert_eq!(u32_le_bytes(0x0102_0304), vec![4, 3, 2, 1]);
}

#[test]
fn payload_at_the_limit_fits() {
    let out = prepend_molecule_like_length(vec![0u8; WITNESS_SIZE_LIMIT - 4]).unwrap();
    assert_eq!(out.len(), WITNESS_SIZE_LIMIT);
    assert_eq!(declared_length(&out), Some(WITNESS_SIZE_LIMIT as u32));
}

#[test]
fn payload_over_the_limit_is_rejected() {
    assert_eq!(
        prepend_molecule_like_length(vec![0u8; WITNESS_SIZE_LIMIT - 3]),
        Err(EncodeError::SizeLimitExceeded { total: WITNESS_SIZE_LIMIT + 1, limit: WITNESS_SIZE_LIMIT })
    );
    assert_eq!(
        encode_with_limit(vec![9], 4),
        Err(EncodeError::SizeLimitExceeded { total: 5, limit: 4 })
    );
    assert_eq!(encode_with_limit(Vec::new(), 4), Ok(vec![4, 0, 0, 0]));
    assert_eq!(
        encode_with_limit(Vec::new(), 3),
        Err(EncodeError::SizeLimitExceeded { total: 4, limit: 3 })
    );
}

#[test]
fn short_input_declares_no_length() {
    assert_eq!(declared_length(&[1, 2, 3]), None);
    assert_eq!(declared_length(&[1, 2, 3, 4]), Some(0x0403_0201));
}
