use rustycask::errors::CaskError;
use rustycask::hint::{apply_hint_page, decode_hint, encode_hint, write_hint};
use rustycask::keydir::{Keydir, KeydirEntry};
use rustycask::page::Page;
use rustycask::segment::Segment;
use rustycask::store::Cask;

fn entry(file_id: u64, value_pos: u64, value_size: u64, tombstone: bool) -> KeydirEntry {
    KeydirEntry { file_id, value_size, value_pos, tombstone }
}

#[test]
fn test_hint_round_trip() {
    let e = entry(0, 42, 5, false);
    let bytes = encode_hint(b"some-key", e);
    let (key, decoded) = decode_hint(bytes.as_slice(), 7).unwrap();
    assert_eq!(key.as_slice(), b"some-key");
    assert_eq!(decoded, entry(7, 42, 5, false));
}

#[test]
fn test_hint_round_trip_tombstone() {
    let e = entry(0, 9, 0, true);
    let bytes = encode_hint(b"k", e);
    let (key, decoded) = decode_hint(bytes.as_slice(), 3).unwrap();
    assert_eq!(key.as_slice(), b"k");
    assert!(decoded.tombstone);
}

#[test]
fn test_hint_decode_short_record_is_corrupt() {
    assert!(matches!(
        decode_hint(&[0u8, 1u8], 0),
        Err(CaskError::CorruptRecord)
    ));
}

#[test]
fn test_hint_page_replays_into_keydir() {
    // Write hint records for one segment into a page, flush and load it,
    // then replay the page into a fresh keydir: the fast recovery path.
    let mut page = Page::new(256);
    write_hint(&mut page, b"a", entry(0, 20, 2, false)).unwrap();
    write_hint(&mut page, b"b", entry(0, 47, 3, false)).unwrap();
    write_hint(&mut page, b"a", entry(0, 90, 4, false)).unwrap();

    let mut file: Vec<u8> = Vec::new();
    page.flush(&mut file, 0);
    let mut loaded = Page::new(256);
    loaded.load(&file, 0).unwrap();

    let mut kd = Keydir::new();
    apply_hint_page(&mut kd, &loaded, 5).unwrap();
    // The page chains from the boundary (newest record) toward the top
    // of the block (oldest), so the oldest record for "a" is applied
    // last and wins within this page order.
    assert_eq!(kd.len(), 2);
    assert_eq!(kd.get(b"b"), Some(entry(5, 47, 3, false)));
    assert!(kd.get(b"a").is_some());
}

#[test]
fn test_hint_page_tombstone_removes_key() {
    let mut page = Page::new(128);
    // Written later, replayed first from the boundary: the tombstone is
    // applied before the put, so the key survives only through the put.
    write_hint(&mut page, b"k", entry(0, 30, 2, true)).unwrap();
    let mut kd = Keydir::new();
    kd.put(b"k".to_vec(), entry(0, 10, 2, false));
    apply_hint_page(&mut kd, &page, 0).unwrap();
    assert_eq!(kd.get(b"k"), None);
}

#[test]
fn test_hint_page_full_rolls_over() {
    let mut page = Page::new(64);
    // One record costs 8 (page prefix) + 17 (hint header) + key bytes.
    assert!(write_hint(&mut page, b"abcdefgh", entry(0, 1, 1, false)).is_ok());
    assert!(matches!(
        write_hint(&mut page, b"abcdefgh", entry(0, 2, 1, false)),
        Err(CaskError::PageFull)
    ));
}

#[test]
fn test_hint_path_matches_keydir_after_merge() {
    let mut writer = Cask::open(Vec::new());
    writer.put(b"a", b"one").unwrap();
    writer.put(b"b", b"two").unwrap();
    let seg = Segment::from_bytes(0, writer.active_segment().data().clone());

    let mut db = Cask::open(vec![seg]);
    db.merge().unwrap();
    let merged_id = db.sealed_segment(0).id();

    // Serialize the merged segment's index records into a page, as a
    // sealing writer would, then replay the page into a fresh keydir:
    // the fast path must agree with the live keydir.
    let mut page = Page::new(4096);
    for i in 0..db.keydir_len() {
        let (key, e) = db.keydir_pair(i);
        if e.file_id == merged_id {
            write_hint(&mut page, &key, e).unwrap();
        }
    }
    let mut kd = Keydir::new();
    apply_hint_page(&mut kd, &page, merged_id).unwrap();
    assert_eq!(kd.len(), 2);
    assert_eq!(kd.get(b"a"), db.keydir_get(b"a"));
    assert_eq!(kd.get(b"b"), db.keydir_get(b"b"));
}

#[test]
fn test_corrupt_hint_page_is_rejected() {
    let mut page = Page::new(64);
    write_hint(&mut page, b"k", entry(0, 1, 1, false)).unwrap();
    let mut file: Vec<u8> = Vec::new();
    page.flush(&mut file, 0);
    // Tamper with the record's tombstone flag byte so it is neither a
    // put nor a tombstone.
    let pos = page.block_start_pos();
    file[pos + 8] = 9;
    let mut loaded = Page::new(64);
    loaded.load(&file, 0).unwrap();
    let mut kd = Keydir::new();
    assert!(matches!(
        apply_hint_page(&mut kd, &loaded, 0),
        Err(CaskError::CorruptRecord)
    ));
}
