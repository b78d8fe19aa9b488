use cell_data_generator::order::{bytes_le, concatenate, encode_sorted, sort_byte_strings};

fn strings(items: &[&[u8]]) -> Vec<Vec<u8>> {
    items.iter().map(|item| item.to_vec()).collect()
}

#[test]
fn prefix_comes_first() {
    assert!(bytes_le(b"", b""));
    assert!(bytes_le(b"", b"a"));
    assert!(!bytes_le(b"a", b""));
    assert!(bytes_le(b"ab", b"abc"));
    assert!(!bytes_le(b"abc", b"ab"));
    assert!(bytes_le(b"abc", b"abc"));
}

#[test]
fn first_differing_byte_decides() {
    assert!(bytes_le(b"abc", b"abd"));
    assert!(!bytes_le(b"abd", b"abc"));
    assert!(bytes_le(&[0x7f, 0xff], &[0x80]));
    assert!(!bytes_le(&[0xff], &[0x00, 0xff, 0xff]));
}

#[test]
fn sort_is_ascending_by_raw_bytes() {
    let sorted = sort_byte_strings(&strings(&[b"pear", b"apple", b"", b"app", b"zebra", b"apple"]));
    assert_eq!(sorted, strings(&[b"", b"app", b"apple", b"apple", b"pear", b"zebra"]));
    let sorted = sort_byte_strings(&vec![vec![0xff], vec![0x00, 0x01], vec![0x80], vec![0x00]]);
    assert_eq!(sorted, vec![vec![0x00], vec![0x00, 0x01], vec![0x80], vec![0xff]]);
}

#[test]
fn sort_agrees_with_the_standard_order() {
    let mut items: Vec<Vec<u8>> = Vec::new();
    let mut seed: u32 = 12345;
    for _ in 0..500 {
        let mut item = Vec::new();
        seed = seed.wrapping_mul(1664525).wrapping_add(1013904223);
        let len = (seed >> 28) as usize;
        for _ in 0..len {
            seed = seed.wrapping_mul(1664525).wrapping_add(1013904223);
            item.push((seed >> 24) as u8);
        }
        items.push(item);
    }
    let mut expected = items.clone();
    expected.sort();
    assert_eq!(sort_byte_strings(&items), expected);
}

#[test]
fn sort_of_nothing_and_of_one() {
    assert_eq!(sort_byte_strings(&Vec::new()), Vec::<Vec<u8>>::new());
    assert_eq!(sort_byte_strings(&strings(&[b"only"])), strings(&[b"only"]));
}

#[test]
fn concat_keeps_the_order_given() {
    assert_eq!(concatenate(&strings(&[b"b", b"", b"a", b"cd"])), b"bacd".to_vec());
    assert_eq!(concatenate(&Vec::new()), Vec::<u8>::new());
}

#[test]
fn sorted_encoding_ignores_the_order_given() {
    let one = encode_sorted(&strings(&[b"cc", b"aa", b"bb"]));
    let other = encode_sorted(&strings(&[b"bb", b"cc", b"aa"]));
    assert_eq!(one, b"aabbcc".to_vec());
    assert_eq!(one, other);
}
