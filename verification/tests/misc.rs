use cell_data_generator::combiner::{
    accounts_in, combine, combine_accounts, drop_repeats, join_by_newline, listed, same_bytes,
};
use cell_data_generator::error::EncodeError;
use cell_data_generator::price::{gen_price_config, PriceConfig};
use cell_data_generator::profile::Profile;
use cell_data_generator::record::Record;
use cell_data_generator::timestamp::{gen_timestamp, timestamp_from_seconds, try_gen_timestamp};

#[test]
fn timestamps_are_read_as_utc() {
    assert_eq!(try_gen_timestamp("1970-01-01 00:00:00"), Some(0));
    assert_eq!(try_gen_timestamp("2021-07-19 00:00:00"), Some(1626652800));
    assert_eq!(try_gen_timestamp("2001-09-09 01:46:40"), Some(1000000000));
    assert_eq!(gen_timestamp("2021-07-19 00:00:01"), 1626652801);
}

#[test]
fn times_before_1970_wrap() {
    assert_eq!(try_gen_timestamp("1969-12-31 23:59:59"), Some(u64::MAX));
    assert_eq!(timestamp_from_seconds(-1), u64::MAX);
    assert_eq!(timestamp_from_seconds(i64::MIN), 1u64 << 63);
    assert_eq!(timestamp_from_seconds(i64::MAX), i64::MAX as u64);
    assert_eq!(timestamp_from_seconds(0), 0);
}

#[test]
fn malformed_times_give_nothing() {
    assert_eq!(try_gen_timestamp(""), None);
    assert_eq!(try_gen_timestamp("2021-07-19"), None);
    assert_eq!(try_gen_timestamp("2021-13-19 00:00:00"), None);
    assert_eq!(try_gen_timestamp("2021-07-19 24:00:00"), None);
    assert_eq!(try_gen_timestamp("2021/07/19 00:00:00"), None);
}

#[test]
fn price_config_keeps_its_values() {
    assert_eq!(
        gen_price_config(4, 160_000_000, 160_000_001),
        PriceConfig { length: 4, new: 160_000_000, renew: 160_000_001 }
    );
    assert_eq!(gen_price_config(0, 0, u64::MAX), PriceConfig { length: 0, new: 0, renew: u64::MAX });
}

#[test]
fn profile_needs_buckets_and_an_identity() {
    assert!(Profile::new(32000, 20, 20, 100, 10000).is_some());
    assert!(Profile::new(0, 1, 1, 0, 0).is_some());
    assert!(Profile::new(32000, 32, 255, 100, u32::MAX - 254).is_some());
    assert!(Profile::new(32000, 0, 20, 100, 10000).is_none());
    assert!(Profile::new(32000, 33, 20, 100, 10000).is_none());
    assert!(Profile::new(32000, 20, 0, 100, 10000).is_none());
    assert!(Profile::new(32000, 32, 255, 100, u32::MAX - 253).is_none());
    let profile = Profile::new(32000, 20, 20, 100, 10000).unwrap();
    assert!(profile.is_valid());
    assert_eq!(profile.bucket_category(0), 10000);
    assert_eq!(profile.bucket_category(19), 10019);
    assert_eq!(profile.witness_size_limit, 32000);
    assert_eq!(profile.account_id_length, 20);
    assert_eq!(profile.bucket_count, 20);
    assert_eq!(profile.bucket_capacity, 100);
}

#[test]
fn record_is_its_payload_behind_a_header() {
    let record = Record::new(9, vec![1, 2, 3], 7).unwrap();
    assert_eq!(record.category, 9);
    assert_eq!(record.payload, vec![1, 2, 3]);
    assert_eq!(record.encode(7), Ok(vec![7, 0, 0, 0, 1, 2, 3]));
    assert_eq!(record.encode(6), Err(EncodeError::SizeLimitExceeded { total: 7, limit: 6 }));
    assert_eq!(Record::new(9, vec![1, 2, 3], 6), Err(EncodeError::SizeLimitExceeded { total: 7, limit: 6 }));
    assert_eq!(Record::new(9, Vec::new(), 4).unwrap().encode(4), Ok(vec![4, 0, 0, 0]));
}

#[test]
fn accounts_are_found_stripped_and_lowered() {
    assert_eq!(
        accounts_in("Foo.bit, bar.bit\nBAZ.bit\tx.bit.bit nothing .bit hello.bitcoin  ünï.bit"),
        vec!["foo", "bar", "baz", "x", "hello", "ünï"]
    );
    assert_eq!(accounts_in(""), Vec::<String>::new());
    assert_eq!(accounts_in("no accounts here"), Vec::<String>::new());
    assert_eq!(accounts_in("ÀB.bit"), vec!["Àb"]);
}

#[test]
fn combined_list_is_sorted_and_has_no_repeats() {
    let sources = vec![
        "zed.bit alice.bit".to_string(),
        String::new(),
        "Bob.bit ALICE.bit\nzed.bit.bit".to_string(),
        "carol.bit".to_string(),
    ];
    assert_eq!(combine(&sources), b"alice\nbob\ncarol\nzed".to_vec());
    assert_eq!(combine(&Vec::new()), Vec::<u8>::new());
    assert_eq!(combine(&vec!["one.bit".to_string()]), b"one".to_vec());
}

#[test]
fn repeats_are_dropped() {
    let items = vec![vec![1], vec![1], vec![2], vec![3], vec![3], vec![3], vec![1]];
    assert_eq!(drop_repeats(&items), vec![vec![1], vec![2], vec![3], vec![1]]);
    assert_eq!(drop_repeats(&Vec::new()), Vec::<Vec<u8>>::new());
    assert!(same_bytes(b"abc", b"abc"));
    assert!(!same_bytes(b"abc", b"abd"));
    assert!(!same_bytes(b"abc", b"ab"));
    assert!(same_bytes(b"", b""));
}

#[test]
fn lines_are_joined_by_line_feeds() {
    assert_eq!(join_by_newline(&vec![b"a".to_vec(), b"".to_vec(), b"bc".to_vec()]), b"a\n\nbc".to_vec());
    assert_eq!(join_by_newline(&Vec::new()), Vec::<u8>::new());
    assert_eq!(join_by_newline(&vec![b"a".to_vec()]), b"a".to_vec());
}

#[test]
fn listed_form_has_no_suffix_and_no_capitals() {
    let found: Vec<String> =
        ["Foo.bit", "a.bit.bit", "plain", ".bit", "MiXed.BIT", "bit", "x.bit.", "ÀÉ.bit"]
            .iter()
            .map(|name| name.to_string())
            .collect();
    assert_eq!(listed(&found), vec!["foo", "a", "plain", "", "mixed.bit", "bit", "x.bit.", "ÀÉ"]);
}

#[test]
fn names_are_sorted_by_bytes_and_listed_once() {
    let names: Vec<String> =
        ["b", "a", "b", "ab", "", "a", "é", "z"].iter().map(|name| name.to_string()).collect();
    assert_eq!(combine_accounts(&names), "\na\nab\nb\nz\né".as_bytes().to_vec());
    let other: Vec<String> =
        ["é", "z", "ab", "b", "a", ""].iter().map(|name| name.to_string()).collect();
    assert_eq!(combine_accounts(&names), combine_accounts(&other));
}
