use indradb::family::Family;
use indradb::keys::{
    build_key, is_valid_type, max_datetime, max_uuid, parse_uuid_key, read_datetime,
    read_short_sized_string, read_type, read_unsized_string, read_uuid, Cursor, KeyComponent,
};

fn id(b: u8) -> Vec<u8> {
    vec![b; 16]
}

#[test]
fn build_key_concatenates_components() {
    let key = build_key(vec![
        KeyComponent::Uuid(id(1)),
        KeyComponent::ShortSizedString("likes".to_string()),
        KeyComponent::NaiveDateTime(258),
        KeyComponent::UnsizedString("k".to_string()),
    ]);
    let mut expected = id(1);
    expected.push(5);
    expected.extend_from_slice(b"likes");
    expected.extend_from_slice(&[0, 0, 0, 0, 0, 0, 1, 2]);
    expected.push(b'k');
    assert_eq!(key, expected);
}

#[test]
fn build_key_of_nothing_is_empty() {
    assert!(build_key(vec![]).is_empty());
}

#[test]
fn timestamps_encode_big_endian_so_order_is_kept() {
    let a = build_key(vec![KeyComponent::NaiveDateTime(255)]);
    let b = build_key(vec![KeyComponent::NaiveDateTime(256)]);
    assert_eq!(a, vec![0, 0, 0, 0, 0, 0, 0, 255]);
    assert_eq!(b, vec![0, 0, 0, 0, 0, 0, 1, 0]);
    assert!(a < b);
}

#[test]
fn read_back_every_component() {
    let key = build_key(vec![
        KeyComponent::Uuid(id(7)),
        KeyComponent::ShortSizedString("follows".to_string()),
        KeyComponent::NaiveDateTime(1_500_000_000),
        KeyComponent::UnsizedString("rest of key".to_string()),
    ]);
    let mut cursor = Cursor::new(key);
    assert_eq!(read_uuid(&mut cursor), Some(id(7)));
    assert_eq!(read_short_sized_string(&mut cursor), Some("follows".to_string()));
    assert_eq!(read_datetime(&mut cursor), Some(1_500_000_000));
    assert_eq!(read_unsized_string(&mut cursor), Some("rest of key".to_string()));
    assert_eq!(cursor.pos, cursor.buf.len());
}

#[test]
fn truncated_short_string_reads_nothing() {
    let mut cursor = Cursor::new(vec![5, b'a', b'b']);
    assert_eq!(read_short_sized_string(&mut cursor), None);
    assert_eq!(cursor.pos, 0);
}

#[test]
fn invalid_utf8_reads_nothing() {
    let mut cursor = Cursor::new(vec![0xff, 0xfe]);
    assert_eq!(read_unsized_string(&mut cursor), None);
    assert_eq!(cursor.pos, 0);
    let mut cursor = Cursor::new(vec![2, 0xc3, 0x28]);
    assert_eq!(read_short_sized_string(&mut cursor), None);
}

#[test]
fn non_ascii_strings_round_trip() {
    let key = build_key(vec![KeyComponent::ShortSizedString("héllo".to_string())]);
    assert_eq!(key[0], 6);
    let mut cursor = Cursor::new(key);
    assert_eq!(read_short_sized_string(&mut cursor), Some("héllo".to_string()));
}

#[test]
fn short_reads_fail_without_consuming() {
    let mut cursor = Cursor::new(vec![1, 2, 3]);
    assert_eq!(read_uuid(&mut cursor), None);
    assert_eq!(read_datetime(&mut cursor), None);
    assert_eq!(cursor.pos, 0);
}

#[test]
fn types_are_checked() {
    assert!(is_valid_type(&"likes".to_string()));
    assert!(is_valid_type(&"a-b_C9".to_string()));
    assert!(!is_valid_type(&"".to_string()));
    assert!(!is_valid_type(&"has space".to_string()));
    assert!(!is_valid_type(&"x".repeat(256)));
    assert!(is_valid_type(&"x".repeat(255)));
    let mut cursor = Cursor::new(vec![3, b'a', b' ', b'b']);
    assert_eq!(read_type(&mut cursor), None);
    assert_eq!(cursor.pos, 0);
    let mut cursor = Cursor::new(vec![3, b'a', b'-', b'b']);
    assert_eq!(read_type(&mut cursor), Some("a-b".to_string()));
}

#[test]
fn uuid_keys_have_sixteen_bytes() {
    assert_eq!(parse_uuid_key(id(3)), Some(id(3)));
    assert_eq!(parse_uuid_key(vec![1; 15]), None);
    assert_eq!(parse_uuid_key(vec![1; 17]), None);
}

#[test]
fn maxima() {
    assert_eq!(max_uuid(), vec![0xff; 16]);
    assert_eq!(max_datetime(), i64::MAX);
}

#[test]
fn family_keeps_keys_in_byte_order() {
    let mut f = Family::new();
    f.put(vec![2, 0], vec![20]);
    f.put(vec![1], vec![10]);
    f.put(vec![2], vec![2]);
    f.put(vec![1, 5], vec![15]);
    f.put(vec![1], vec![11]);
    assert_eq!(f.get(&[1]), Some(vec![11]));
    assert_eq!(f.get(&[3]), None);
    let scanned = f.scan_prefix(&[1]);
    assert_eq!(scanned, vec![(vec![1], vec![11]), (vec![1, 5], vec![15])]);
    let all = f.scan_prefix(&[]);
    let keys: Vec<Vec<u8>> = all.into_iter().map(|e| e.0).collect();
    assert_eq!(keys, vec![vec![1], vec![1, 5], vec![2], vec![2, 0]]);
    f.delete(&[1, 5]);
    assert!(!f.contains(&[1, 5]));
    f.delete_prefix(&[2]);
    assert!(!f.contains(&[2]) && !f.contains(&[2, 0]));
    assert!(f.contains(&[1]));
}
