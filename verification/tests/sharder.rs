use cell_data_generator::error::EncodeError;
use cell_data_generator::hashing::{account_id, account_id_from_digest};
use cell_data_generator::length_prefix::declared_length;
use cell_data_generator::profile::Profile;
use cell_data_generator::sharder::{account_ids, bucket_index, collect_bucket, shard, shard_ids};

const ALICE: [u8; 32] = [
    91, 196, 35, 79, 187, 95, 128, 249, 220, 131, 130, 181, 228, 5, 25, 34, 129, 94, 79, 56, 113,
    43, 157, 209, 157, 108, 141, 141, 129, 181, 208, 187,
];
const BOB: [u8; 32] = [
    159, 118, 145, 150, 23, 28, 21, 198, 254, 40, 238, 220, 193, 87, 92, 127, 219, 202, 249, 130,
    181, 211, 24, 112, 76, 2, 210, 192, 66, 164, 102, 195,
];
const CAROL: [u8; 32] = [
    192, 248, 62, 180, 129, 9, 203, 186, 214, 62, 142, 52, 134, 206, 40, 142, 152, 124, 178, 179,
    77, 73, 110, 141, 150, 90, 218, 245, 66, 107, 23, 24,
];

fn names(items: &[&str]) -> Vec<Vec<u8>> {
    items.iter().map(|item| item.as_bytes().to_vec()).collect()
}

#[test]
fn identity_is_the_head_of_the_digest() {
    assert_eq!(account_id(b"alice", 10), ALICE[..10].to_vec());
    assert_eq!(account_id(b"bob", 20), BOB[..20].to_vec());
    assert_eq!(account_id(b"carol", 32), CAROL.to_vec());
    assert_eq!(account_id(b"alice", 0), Vec::<u8>::new());
    assert_eq!(account_id_from_digest(&ALICE, 3), vec![91, 196, 35]);
    assert_eq!(
        account_ids(&names(&["alice", "bob"]), 4),
        vec![ALICE[..4].to_vec(), BOB[..4].to_vec()]
    );
}

#[test]
fn digest_of_nothing_is_the_blank_hash() {
    assert_eq!(
        account_id(b"", 32),
        vec![
            68, 244, 198, 151, 68, 213, 248, 197, 93, 100, 32, 98, 148, 157, 202, 228, 155, 196,
            231, 239, 67, 211, 136, 197, 161, 47, 66, 181, 99, 61, 22, 62
        ]
    );
}

#[test]
fn bucket_is_first_byte_modulo_count() {
    assert_eq!(bucket_index(&[91, 1, 2], 2), 1);
    assert_eq!(bucket_index(&[192], 2), 0);
    assert_eq!(bucket_index(&[159, 0], 20), 19);
    assert_eq!(bucket_index(&[255], 1), 0);
    assert_eq!(bucket_index(&[255], 255), 0);
    assert_eq!(bucket_index(&[254], 255), 254);
}

#[test]
fn collect_keeps_the_order_given() {
    let ids = vec![vec![3, 9], vec![4, 1], vec![1, 7], vec![5, 5], vec![6, 0]];
    assert_eq!(collect_bucket(&ids, 2, 1), vec![vec![3, 9], vec![1, 7], vec![5, 5]]);
    assert_eq!(collect_bucket(&ids, 2, 0), vec![vec![4, 1], vec![6, 0]]);
    assert_eq!(collect_bucket(&ids, 7, 2), Vec::<Vec<u8>>::new());
}

#[test]
fn alice_and_bob_in_two_buckets() {
    let profile = Profile::new(32000, 10, 2, 100, 10000).unwrap();
    let records = shard(&names(&["alice", "bob"]), &profile).unwrap();
    assert_eq!(records.len(), 2);
    assert_eq!(records[0].category, 10000);
    assert_eq!(records[1].category, 10001);
    let mut counts = [0usize; 2];
    counts[(ALICE[0] % 2) as usize] += 1;
    counts[(BOB[0] % 2) as usize] += 1;
    for (index, record) in records.iter().enumerate() {
        let bytes = record.encode(32000).unwrap();
        assert_eq!(declared_length(&bytes), Some((4 + 10 * counts[index]) as u32));
        assert_eq!(bytes.len(), 4 + 10 * counts[index]);
    }
    assert_eq!(records[0].payload, Vec::<u8>::new());
    let mut expected = ALICE[..10].to_vec();
    expected.extend_from_slice(&BOB[..10]);
    assert_eq!(records[1].payload, expected);
    assert_eq!(records[0].encode(32000).unwrap(), vec![4, 0, 0, 0]);
    assert_eq!(&records[1].encode(32000).unwrap()[..4], &[24, 0, 0, 0]);
}

#[test]
fn order_of_names_does_not_matter() {
    let profile = Profile::new(32000, 20, 3, 100, 500).unwrap();
    let one = shard(&names(&["alice", "bob", "carol", "dave", "erin", "frank"]), &profile).unwrap();
    let other = shard(&names(&["frank", "dave", "alice", "erin", "carol", "bob"]), &profile).unwrap();
    assert_eq!(one, other);
    let total: usize = one.iter().map(|record| record.payload.len()).sum();
    assert_eq!(total, 6 * 20);
}

#[test]
fn members_are_sorted_within_a_bucket() {
    let profile = Profile::new(32000, 2, 2, 100, 0).unwrap();
    let ids = vec![vec![9, 1], vec![3, 2], vec![4, 0], vec![3, 1], vec![2, 9], vec![251, 0]];
    let records = shard_ids(&ids, &profile).unwrap();
    assert_eq!(records[0].payload, vec![2, 9, 4, 0]);
    assert_eq!(records[1].payload, vec![3, 1, 3, 2, 9, 1, 251, 0]);
    assert_eq!(records[0].category, 0);
    assert_eq!(records[1].category, 1);
}

#[test]
fn bucket_over_capacity_is_fatal() {
    let profile = Profile::new(32000, 10, 2, 1, 10000).unwrap();
    assert_eq!(
        shard(&names(&["alice", "bob"]), &profile),
        Err(EncodeError::BucketOverflow { bucket_index: 1, count: 2, capacity: 1 })
    );
    let roomy = Profile::new(32000, 10, 2, 2, 10000).unwrap();
    assert!(shard(&names(&["alice", "bob"]), &roomy).is_ok());
}

#[test]
fn lowest_overflowing_bucket_is_reported() {
    let profile = Profile::new(32000, 1, 3, 1, 0).unwrap();
    let ids = vec![vec![2], vec![1], vec![5], vec![4], vec![8]];
    assert_eq!(
        shard_ids(&ids, &profile),
        Err(EncodeError::BucketOverflow { bucket_index: 1, count: 2, capacity: 1 })
    );
}

#[test]
fn overflow_wins_over_size() {
    let profile = Profile::new(5, 2, 2, 1, 0).unwrap();
    let ids = vec![vec![0, 0], vec![1, 1], vec![3, 3]];
    assert_eq!(
        shard_ids(&ids, &profile),
        Err(EncodeError::BucketOverflow { bucket_index: 1, count: 2, capacity: 1 })
    );
    let ids = vec![vec![0, 0], vec![1, 1]];
    assert_eq!(shard_ids(&ids, &profile), Err(EncodeError::SizeLimitExceeded { total: 6, limit: 5 }));
}

#[test]
fn no_accounts_give_empty_buckets() {
    let profile = Profile::new(32000, 20, 20, 0, 10000).unwrap();
    let records = shard(&Vec::new(), &profile).unwrap();
    assert_eq!(records.len(), 20);
    for (index, record) in records.iter().enumerate() {
        assert_eq!(record.category, 10000 + index as u32);
        assert_eq!(record.encode(32000).unwrap(), vec![4, 0, 0, 0]);
    }
}

#[test]
fn duplicates_are_kept() {
    let profile = Profile::new(32000, 10, 1, 10, 7).unwrap();
    let records = shard(&names(&["bob", "alice", "bob"]), &profile).unwrap();
    let mut expected = ALICE[..10].to_vec();
    expected.extend_from_slice(&BOB[..10]);
    expected.extend_from_slice(&BOB[..10]);
    assert_eq!(records[0].payload, expected);
}
