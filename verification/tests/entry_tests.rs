use rustycask::entry::Entry;
use rustycask::errors::CaskError;

#[test]
fn test_construct_entry() {
    let entry = Entry::new("name".as_bytes(), "John".as_bytes());
    assert_eq!(entry.key_size(), 4);
    assert_eq!(entry.value_size(), 4);
}

#[test]
fn test_round_trip_plain() {
    let e = Entry::new(b"greeting", b"hello world");
    let bytes = e.encode();
    let (d, consumed) = Entry::decode(bytes.as_slice(), 0).unwrap();
    assert_eq!(consumed, bytes.len());
    assert_eq!(consumed, 17 + 8 + 11);
    assert_eq!(d.key().as_slice(), b"greeting");
    assert_eq!(d.value().as_slice(), b"hello world");
    assert!(!d.is_tombstone());
}

#[test]
fn test_round_trip_empty_value() {
    let e = Entry::new(b"k", b"");
    let bytes = e.encode();
    let (d, consumed) = Entry::decode(bytes.as_slice(), 0).unwrap();
    assert_eq!(consumed, 18);
    assert_eq!(d.key().as_slice(), b"k");
    assert_eq!(d.value().as_slice(), b"");
    assert!(!d.is_tombstone());
}

#[test]
fn test_tombstone_distinguishable_from_empty_put() {
    let t = Entry::tombstone(b"k");
    let p = Entry::new(b"k", b"");
    let tb = t.encode();
    let pb = p.encode();
    assert_ne!(tb, pb);
    let (td, _) = Entry::decode(tb.as_slice(), 0).unwrap();
    let (pd, _) = Entry::decode(pb.as_slice(), 0).unwrap();
    assert!(td.is_tombstone());
    assert!(!pd.is_tombstone());
    assert_eq!(td.key().as_slice(), b"k");
    assert_eq!(td.value_size(), 0);
}

#[test]
fn test_decode_at_offset() {
    let mut bytes = Entry::new(b"a", b"1").encode();
    let mut second = Entry::new(b"bb", b"22").encode();
    let first_len = bytes.len();
    bytes.append(&mut second);
    let (d, consumed) = Entry::decode(bytes.as_slice(), first_len).unwrap();
    assert_eq!(d.key().as_slice(), b"bb");
    assert_eq!(d.value().as_slice(), b"22");
    assert_eq!(first_len + consumed, bytes.len());
}

#[test]
fn test_decode_short_buffer_is_corrupt() {
    assert!(matches!(
        Entry::decode(&[0u8, 1u8, 2u8], 0),
        Err(CaskError::CorruptRecord)
    ));
}

#[test]
fn test_decode_truncated_payload_is_corrupt() {
    let mut bytes = Entry::new(b"key", b"value").encode();
    bytes.pop();
    assert!(matches!(
        Entry::decode(bytes.as_slice(), 0),
        Err(CaskError::CorruptRecord)
    ));
}

#[test]
fn test_decode_unknown_kind_is_corrupt() {
    let mut bytes = Entry::new(b"key", b"value").encode();
    bytes[0] = 7;
    assert!(matches!(
        Entry::decode(bytes.as_slice(), 0),
        Err(CaskError::CorruptRecord)
    ));
}
