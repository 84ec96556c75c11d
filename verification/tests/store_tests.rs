use rustycask::errors::CaskError;
use rustycask::keydir::KeydirEntry;
use rustycask::segment::Segment;
use rustycask::store::Cask;

#[test]
fn test_open_initializes_data_file_on_empty_dir() {
    let db = Cask::open(Vec::new());
    assert_eq!(db.active_file_id(), 0);
}

#[test]
fn test_put_writes_data_to_log_file() {
    let mut db = Cask::open(Vec::new());
    let _ = db.put(b"key", b"value");

    let log_size = db.active_size();
    assert!(log_size > 0, "expected > 0, got 0");
}

#[test]
fn test_put_appends_data_to_log_file() {
    let mut db = Cask::open(Vec::new());

    assert!(db.put(b"key", b"value").is_ok());
    assert!(db.put(b"key", b"value2").is_ok());
}

#[test]
fn test_put_updates_keydir() {
    let mut db = Cask::open(Vec::new());
    let _ = db.put(b"key", b"value");
    let _ = db.put(b"key", b"value2");

    let keydir_entry = db.keydir_get(b"key");
    assert_eq!(keydir_entry.is_some(), true);

    // The first record occupies 17 header bytes plus "key" plus "value";
    // the second record starts at 25 and its value begins after the
    // header and the key, at 25 + 17 + 3 = 45.
    let value_pointer = keydir_entry.unwrap();
    assert_eq!(
        value_pointer,
        KeydirEntry {
            file_id: 0,
            value_size: 6,
            value_pos: 45,
            tombstone: false,
        }
    );
}

#[test]
fn test_segment_rotation_picks_next_id() {
    let segments = vec![
        Segment::from_bytes(0, Vec::new()),
        Segment::from_bytes(1, Vec::new()),
        Segment::from_bytes(2, Vec::new()),
        Segment::from_bytes(3, Vec::new()),
    ];
    let db = Cask::open(segments);
    assert_eq!(db.active_file_id(), 4);

    let empty = Cask::open(Vec::new());
    assert_eq!(empty.active_file_id(), 0);
}

#[test]
fn test_put_get_delete_reopen_scenario() {
    let mut db = Cask::open(Vec::new());
    db.put(b"k", b"v1").unwrap();
    db.put(b"k", b"v2").unwrap();
    assert_eq!(db.get(b"k").unwrap(), b"v2".to_vec());
    db.delete(b"k").unwrap();
    assert!(matches!(db.get(b"k"), Err(CaskError::NotFound)));

    // Close and reopen the same directory: the embedding program hands
    // back the bytes of the one segment that was written. Recovery must
    // reconstruct the tombstoned state, not merely the last put.
    let seg = Segment::from_bytes(db.active_file_id(), db.active_segment().data().clone());
    let db2 = Cask::open(vec![seg]);
    assert_eq!(db2.active_file_id(), 1);
    assert!(matches!(db2.get(b"k"), Err(CaskError::NotFound)));
}

#[test]
fn test_recovery_replays_puts_and_overwrites() {
    let mut db = Cask::open(Vec::new());
    db.put(b"a", b"1").unwrap();
    db.put(b"b", b"2").unwrap();
    db.put(b"a", b"3").unwrap();

    let seg = Segment::from_bytes(db.active_file_id(), db.active_segment().data().clone());
    let db2 = Cask::open(vec![seg]);
    assert_eq!(db2.get(b"a").unwrap(), b"3".to_vec());
    assert_eq!(db2.get(b"b").unwrap(), b"2".to_vec());
}

#[test]
fn test_recovery_stops_at_torn_tail() {
    let mut db = Cask::open(Vec::new());
    db.put(b"a", b"1").unwrap();
    db.put(b"b", b"2").unwrap();

    // A crash mid-write leaves a torn record at the tail: replay keeps
    // every complete record and discards the tail.
    let mut bytes = db.active_segment().data().clone();
    bytes.push(0u8);
    bytes.push(9u8);
    let db2 = Cask::open(vec![Segment::from_bytes(0, bytes)]);
    assert_eq!(db2.get(b"a").unwrap(), b"1".to_vec());
    assert_eq!(db2.get(b"b").unwrap(), b"2".to_vec());
}

#[test]
fn test_recovery_applies_segments_in_id_order() {
    let mut first = Cask::open(Vec::new());
    first.put(b"k", b"old").unwrap();
    let seg0 = Segment::from_bytes(0, first.active_segment().data().clone());

    let mut second = Cask::open(Vec::new());
    second.put(b"k", b"new").unwrap();
    second.delete(b"gone").unwrap();
    let seg1 = Segment::from_bytes(1, second.active_segment().data().clone());

    let db = Cask::open(vec![seg0, seg1]);
    assert_eq!(db.active_file_id(), 2);
    assert_eq!(db.get(b"k").unwrap(), b"new".to_vec());
    assert!(matches!(db.get(b"gone"), Err(CaskError::NotFound)));
}

#[test]
fn test_merge_preserves_observable_state() {
    // Build a sealed segment holding live, overwritten and deleted keys.
    let mut writer = Cask::open(Vec::new());
    writer.put(b"a", b"av").unwrap();
    writer.put(b"b", b"bv").unwrap();
    writer.put(b"a", b"av2").unwrap();
    writer.put(b"gone", b"x").unwrap();
    let seg = Segment::from_bytes(0, writer.active_segment().data().clone());

    let mut db = Cask::open(vec![seg]);
    db.delete(b"gone").unwrap();
    db.put(b"c", b"cv").unwrap();

    assert!(db.merge().is_ok());

    // Observable state is exactly what it was before the merge.
    assert_eq!(db.get(b"a").unwrap(), b"av2".to_vec());
    assert_eq!(db.get(b"b").unwrap(), b"bv".to_vec());
    assert_eq!(db.get(b"c").unwrap(), b"cv".to_vec());
    assert!(matches!(db.get(b"gone"), Err(CaskError::NotFound)));

    // Only the newly produced segment and the active one remain.
    assert_eq!(db.sealed_count(), 1);
    assert_eq!(db.active_file_id(), 1);
    assert_eq!(db.sealed_segment(0).id(), 2);

    // Repointed keydir entries lead into the new segment set only.
    let a_entry = db.keydir_get(b"a").unwrap();
    assert_eq!(a_entry.file_id, 2);
    let c_entry = db.keydir_get(b"c").unwrap();
    assert_eq!(c_entry.file_id, 1);
}

#[test]
fn test_get_missing_key_is_not_found() {
    let db = Cask::open(Vec::new());
    assert!(matches!(db.get(b"nope"), Err(CaskError::NotFound)));
}

#[test]
fn test_delete_absent_key_is_ok() {
    let mut db = Cask::open(Vec::new());
    assert!(db.delete(b"nope").is_ok());
    assert!(matches!(db.get(b"nope"), Err(CaskError::NotFound)));
}

#[test]
fn test_next_entry_walks_a_segment() {
    let mut db = Cask::open(Vec::new());
    db.put(b"a", b"1").unwrap();
    db.delete(b"a").unwrap();
    let seg = Segment::from_bytes(0, db.active_segment().data().clone());

    let (first, n1) = seg.next_entry(0).unwrap();
    assert_eq!(first.key().as_slice(), b"a");
    assert_eq!(first.value().as_slice(), b"1");
    assert!(!first.is_tombstone());
    let (second, n2) = seg.next_entry(n1).unwrap();
    assert_eq!(second.key().as_slice(), b"a");
    assert!(second.is_tombstone());
    assert_eq!(n1 + n2, seg.len());
    // At the clean end of the segment no record starts.
    assert!(matches!(seg.next_entry(n1 + n2), Err(CaskError::CorruptRecord)));
}

#[test]
fn test_read_value_short_segment_is_corrupt() {
    let seg = Segment::from_bytes(0, vec![1u8, 2u8, 3u8]);
    assert!(matches!(seg.read_value(2, 5), Err(CaskError::CorruptRecord)));
    assert_eq!(seg.read_value(1, 2).unwrap(), vec![2u8, 3u8]);
}
