use cell_data_generator::error::EncodeError;
use cell_data_generator::generators::{
    gen_config_cell_char_set, gen_config_cell_record_key_namespace,
    gen_config_cell_reserved_account, gen_config_cell_sub_account_beta_list,
    gen_config_cell_unavailable_account, read_hash_ids,
};
use cell_data_generator::list_codec::CharacterSetNamespace;
use cell_data_generator::profile::Profile;
use cell_data_generator::text::{clean_lines, drop_blank, line_bytes};

const ALICE: [u8; 32] = [
    91, 196, 35, 79, 187, 95, 128, 249, 220, 131, 130, 181, 228, 5, 25, 34, 129, 94, 79, 56, 113,
    43, 157, 209, 157, 108, 141, 141, 129, 181, 208, 187,
];
const BOB: [u8; 32] = [
    159, 118, 145, 150, 23, 28, 21, 198, 254, 40, 238, 220, 193, 87, 92, 127, 219, 202, 249, 130,
    181, 211, 24, 112, 76, 2, 210, 192, 66, 164, 102, 195,
];
const ALICE_HEX: &str = "5bc4234fbb5f80f9dc8382b5e4051922815e4f38712b9dd19d6c8d8d81b5d0bb";
const BOB_HEX: &str = "9f769196171c15c6fe28eedcc1575c7fdbcaf982b5d318704c02d2c042a466c3";

fn lines(items: &[&str]) -> Vec<String> {
    items.iter().map(|item| item.to_string()).collect()
}

#[test]
fn lines_become_their_utf8_bytes() {
    assert_eq!(
        line_bytes(&lines(&["ab", "", "é", " x "])),
        vec![vec![b'a', b'b'], vec![], vec![0xc3, 0xa9], vec![b' ', b'x', b' ']]
    );
}

#[test]
fn cleaning_strips_whitespace_and_drops_blank_lines() {
    assert_eq!(
        clean_lines(&lines(&["  a", "b  ", "", "   ", "\tc\n", "d e"])),
        vec![vec![b'a'], vec![b'b'], vec![b'c'], vec![b'd', b' ', b'e']]
    );
    assert_eq!(clean_lines(&Vec::new()), Vec::<Vec<u8>>::new());
}

#[test]
fn record_keys_are_sorted_and_terminated() {
    let record = gen_config_cell_record_key_namespace(
        &lines(&["profile.twitter", "address.eth", "address.btc"]),
        105,
        32000,
    )
    .unwrap();
    assert_eq!(record.category, 105);
    assert_eq!(record.payload, b"address.btc\0address.eth\0profile.twitter\0".to_vec());
    let bytes = record.encode(32000).unwrap();
    assert_eq!(&bytes[..4], &[44, 0, 0, 0]);
    assert_eq!(bytes.len(), 44);
}

#[test]
fn record_keys_do_not_depend_on_line_order() {
    let one = gen_config_cell_record_key_namespace(&lines(&["b", "a", "c", "ab"]), 1, 100);
    let other = gen_config_cell_record_key_namespace(&lines(&["ab", "c", "b", "a"]), 1, 100);
    assert_eq!(one, other);
    assert_eq!(one.unwrap().payload, b"a\0ab\0b\0c\0".to_vec());
}

#[test]
fn record_key_with_zero_byte_is_rejected() {
    assert_eq!(
        gen_config_cell_record_key_namespace(&lines(&["b", "a\0", "c"]), 105, 32000),
        Err(EncodeError::InvalidCharacter { category: 105, item_index: 0 })
    );
}

#[test]
fn record_keys_over_the_limit_are_rejected() {
    assert_eq!(
        gen_config_cell_record_key_namespace(&lines(&["abc", "de"]), 105, 10),
        Err(EncodeError::SizeLimitExceeded { total: 11, limit: 10 })
    );
    assert!(gen_config_cell_record_key_namespace(&lines(&["abc", "de"]), 105, 11).is_ok());
}

#[test]
fn reserved_accounts_are_sharded() {
    let profile = Profile::new(32000, 10, 2, 100, 10000).unwrap();
    let records = gen_config_cell_reserved_account(&lines(&["bob", "alice"]), &profile).unwrap();
    assert_eq!(records.len(), 2);
    assert_eq!(records[0].payload, Vec::<u8>::new());
    let mut expected = ALICE[..10].to_vec();
    expected.extend_from_slice(&BOB[..10]);
    assert_eq!(records[1].payload, expected);
    assert_eq!(records[1].category, 10001);
    let tight = Profile::new(32000, 10, 2, 1, 10000).unwrap();
    assert_eq!(
        gen_config_cell_reserved_account(&lines(&["bob", "alice"]), &tight),
        Err(EncodeError::BucketOverflow { bucket_index: 1, count: 2, capacity: 1 })
    );
}

#[test]
fn char_sets_come_out_in_the_order_given() {
    let sets = vec![
        CharacterSetNamespace::from_lines(100, true, &lines(&["1", " 2 ", ""])),
        CharacterSetNamespace::from_lines(101, false, &lines(&["b", "a"])),
        CharacterSetNamespace::from_lines(102, false, &Vec::new()),
    ];
    let records = gen_config_cell_char_set(&sets, 32000).unwrap();
    assert_eq!(records.len(), 3);
    assert_eq!(records[0].category, 100);
    assert_eq!(records[0].payload, vec![1, b'1', 0, b'2', 0]);
    assert_eq!(records[1].category, 101);
    assert_eq!(records[1].payload, vec![0, b'b', 0, b'a', 0]);
    assert_eq!(records[2].category, 102);
    assert_eq!(records[2].payload, vec![0]);
    assert_eq!(records[2].encode(32000).unwrap(), vec![5, 0, 0, 0, 0]);
}

#[test]
fn first_failing_char_set_is_reported() {
    let sets = vec![
        CharacterSetNamespace::from_lines(100, true, &lines(&["1"])),
        CharacterSetNamespace::from_lines(101, false, &lines(&["a", "b", "c\0"])),
        CharacterSetNamespace::from_lines(102, false, &lines(&["\0"])),
    ];
    assert_eq!(
        gen_config_cell_char_set(&sets, 32000),
        Err(EncodeError::InvalidCharacter { category: 101, item_index: 2 })
    );
    let sets = vec![
        CharacterSetNamespace::from_lines(100, true, &lines(&["1234567"])),
        CharacterSetNamespace::from_lines(101, false, &lines(&["\0"])),
    ];
    assert_eq!(
        gen_config_cell_char_set(&sets, 12),
        Err(EncodeError::SizeLimitExceeded { total: 13, limit: 12 })
    );
    assert_eq!(gen_config_cell_char_set(&Vec::new(), 0), Ok(Vec::new()));
}

#[test]
fn beta_list_holds_sorted_identities() {
    let profile = Profile::new(32000, 20, 20, 100, 10000).unwrap();
    let record = gen_config_cell_sub_account_beta_list(&lines(&["bob", "alice"]), 118, &profile).unwrap();
    let mut expected = ALICE[..20].to_vec();
    expected.extend_from_slice(&BOB[..20]);
    assert_eq!(record.category, 118);
    assert_eq!(record.payload, expected);
    let other = gen_config_cell_sub_account_beta_list(&lines(&["alice", "bob"]), 118, &profile).unwrap();
    assert_eq!(record, other);
    assert_eq!(&record.encode(32000).unwrap()[..4], &[44, 0, 0, 0]);
}

#[test]
fn beta_list_over_the_limit_is_rejected() {
    let profile = Profile::new(43, 20, 20, 100, 10000).unwrap();
    assert_eq!(
        gen_config_cell_sub_account_beta_list(&lines(&["bob", "alice"]), 118, &profile),
        Err(EncodeError::SizeLimitExceeded { total: 44, limit: 43 })
    );
}

#[test]
fn unavailable_accounts_are_read_from_hex() {
    let profile = Profile::new(32000, 20, 20, 100, 10000).unwrap();
    let record =
        gen_config_cell_unavailable_account(&lines(&[BOB_HEX, ALICE_HEX]), 119, &profile).unwrap();
    let mut expected = ALICE[..20].to_vec();
    expected.extend_from_slice(&BOB[..20]);
    assert_eq!(record.category, 119);
    assert_eq!(record.payload, expected);
    let upper = BOB_HEX.to_uppercase();
    let other =
        gen_config_cell_unavailable_account(&lines(&[ALICE_HEX, upper.as_str()]), 119, &profile).unwrap();
    assert_eq!(record, other);
}

#[test]
fn hex_digits_of_either_case_are_read() {
    assert_eq!(
        read_hash_ids(&vec![b"00ff10".to_vec(), b"AbCdEf".to_vec(), b"0123456789".to_vec()], 2),
        Ok(vec![vec![0x00, 0xff], vec![0xab, 0xcd], vec![0x01, 0x23]])
    );
    assert_eq!(read_hash_ids(&vec![b"".to_vec()], 0), Ok(vec![vec![]]));
}

#[test]
fn unreadable_hash_is_reported_with_its_line() {
    let profile = Profile::new(32000, 20, 20, 100, 10000).unwrap();
    let odd = &ALICE_HEX[..63];
    assert_eq!(
        gen_config_cell_unavailable_account(&lines(&[ALICE_HEX, odd]), 119, &profile),
        Err(EncodeError::InputUnreadable { line_index: 1 })
    );
    let short = &ALICE_HEX[..38];
    assert_eq!(
        gen_config_cell_unavailable_account(&lines(&[short, ALICE_HEX]), 119, &profile),
        Err(EncodeError::InputUnreadable { line_index: 0 })
    );
    let wrong = ALICE_HEX.replace('5', "g");
    assert_eq!(
        gen_config_cell_unavailable_account(&lines(&[ALICE_HEX, BOB_HEX, wrong.as_str()]), 119, &profile),
        Err(EncodeError::InputUnreadable { line_index: 2 })
    );
    assert_eq!(
        gen_config_cell_unavailable_account(&lines(&["0x00"]), 119, &profile),
        Err(EncodeError::InputUnreadable { line_index: 0 })
    );
    assert_eq!(
        read_hash_ids(&vec![b"0011".to_vec(), b"00".to_vec()], 2),
        Err(EncodeError::InputUnreadable { line_index: 1 })
    );
}

#[test]
fn blank_texts_are_dropped() {
    assert_eq!(
        drop_blank(&vec!["a", "", " ", "", "bc"]),
        vec![vec![b'a'], vec![b' '], vec![b'b', b'c']]
    );
    assert_eq!(drop_blank(&vec!["", ""]), Vec::<Vec<u8>>::new());
}
