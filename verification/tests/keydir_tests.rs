use rustycask::keydir::{bytes_eq, Keydir, KeydirEntry};

fn entry(file_id: u64, value_pos: u64, value_size: u64) -> KeydirEntry {
    KeydirEntry { file_id, value_size, value_pos, tombstone: false }
}

#[test]
fn test_keydir_put_then_get() {
    let mut kd = Keydir::new();
    kd.put(b"k".to_vec(), entry(0, 17, 5));
    assert_eq!(kd.get(b"k"), Some(entry(0, 17, 5)));
    assert_eq!(kd.get(b"other"), None);
}

#[test]
fn test_keydir_put_overwrites() {
    let mut kd = Keydir::new();
    kd.put(b"k".to_vec(), entry(0, 17, 5));
    kd.put(b"k".to_vec(), entry(1, 40, 9));
    assert_eq!(kd.len(), 1);
    assert_eq!(kd.get(b"k"), Some(entry(1, 40, 9)));
}

#[test]
fn test_keydir_delete_removes_and_tolerates_absent() {
    let mut kd = Keydir::new();
    kd.put(b"k".to_vec(), entry(0, 17, 5));
    kd.delete(b"k");
    assert_eq!(kd.get(b"k"), None);
    kd.delete(b"k");
    assert_eq!(kd.get(b"k"), None);
    assert_eq!(kd.len(), 0);
}

#[test]
fn test_keydir_apply_routes_tombstones() {
    let mut kd = Keydir::new();
    kd.apply(b"k".to_vec(), entry(0, 17, 5));
    assert_eq!(kd.get(b"k"), Some(entry(0, 17, 5)));
    let tomb = KeydirEntry { file_id: 1, value_size: 0, value_pos: 20, tombstone: true };
    kd.apply(b"k".to_vec(), tomb);
    assert_eq!(kd.get(b"k"), None);
}

#[test]
fn test_bytes_eq() {
    assert!(bytes_eq(b"abc", b"abc"));
    assert!(!bytes_eq(b"abc", b"abd"));
    assert!(!bytes_eq(b"abc", b"ab"));
    assert!(bytes_eq(b"", b""));
}
