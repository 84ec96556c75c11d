use rustycask::errors::CaskError;
use rustycask::page::Page;

#[test]
fn test_init_page() {
    let page = Page::new(4096);
    assert_eq!(page.contents().len(), 4096);
}

#[test]
fn test_append_data_to_page() {
    let mut page = Page::new(4096);
    assert_eq!(page.block_start_pos(), 4095);

    page.write("hello world".as_bytes()).unwrap();
    assert_eq!(page.block_start_pos(), 4076);
}

#[test]
fn test_return_error_on_appending_data() {
    let mut page = Page::new(50);
    let res = page.write("hello world".as_bytes());
    assert!(res.is_ok());

    let res2 = page.write("hello darkness my old friend".as_bytes());
    assert!(res2.is_err());
}

#[test]
fn test_load_page_from_file() {
    let mut file: Vec<u8> = Vec::new();
    let mut page = Page::new(4096);
    let mut page2 = Page::new(4096);

    page.write("hello".as_bytes()).unwrap();
    page.flush(&mut file, 0);

    page2.load(&file, 0).unwrap();
    assert_eq!(page.block_start_pos(), 4082);
    assert_eq!(page2.block_start_pos(), 4082);
}

#[test]
fn test_flush_page_to_file() {
    let mut file: Vec<u8> = Vec::new();
    let page = Page::new(4096);
    page.flush(&mut file, 0);

    assert_eq!(file.len(), 4096);
}

#[test]
fn test_page_full_exactly_at_capacity_boundary() {
    // Block of 64 bytes: the boundary starts at 63, every eight-byte
    // record costs a length prefix of 8 plus the payload, and a write
    // must not run into the eight-byte header at offset 0.
    let mut page = Page::new(64);
    assert!(page.write(b"aaaaaaaa").is_ok());
    assert_eq!(page.block_start_pos(), 47);
    assert!(page.write(b"bbbbbbbb").is_ok());
    assert_eq!(page.block_start_pos(), 31);
    assert!(page.write(b"cccccccc").is_ok());
    assert_eq!(page.block_start_pos(), 15);
    // The next write of the same size would cross the header: exactly
    // this write fails, and the page is left untouched.
    assert!(matches!(page.write(b"dddddddd"), Err(CaskError::PageFull)));
    assert_eq!(page.block_start_pos(), 15);
}

#[test]
fn test_prior_writes_remain_readable_after_page_full() {
    let mut page = Page::new(64);
    page.write(b"aaaaaaaa").unwrap();
    page.write(b"bbbbbbbb").unwrap();
    page.write(b"cccccccc").unwrap();
    assert!(page.write(b"dddddddd").is_err());

    let mut file: Vec<u8> = Vec::new();
    page.flush(&mut file, 0);
    let mut loaded = Page::new(64);
    loaded.load(&file, 0).unwrap();

    // Records chain from the boundary toward the top of the block,
    // newest first; the byte at block_size - 1 is never used.
    let mut pos = loaded.block_start_pos();
    let mut records: Vec<Vec<u8>> = Vec::new();
    while pos < loaded.contents().len() - 1 {
        let (payload, next) = loaded.record_at(pos).unwrap();
        records.push(payload);
        pos = next;
    }
    assert_eq!(pos, 63);
    assert_eq!(records.len(), 3);
    assert_eq!(records[0].as_slice(), b"cccccccc");
    assert_eq!(records[1].as_slice(), b"bbbbbbbb");
    assert_eq!(records[2].as_slice(), b"aaaaaaaa");
}

#[test]
fn test_flush_to_second_block() {
    let mut file: Vec<u8> = Vec::new();
    let mut first = Page::new(32);
    first.write(b"one").unwrap();
    first.flush(&mut file, 0);
    let mut second = Page::new(32);
    second.write(b"two").unwrap();
    second.flush(&mut file, 1);
    assert_eq!(file.len(), 64);

    let mut loaded = Page::new(32);
    loaded.load(&file, 1).unwrap();
    let (payload, _) = loaded.record_at(loaded.block_start_pos()).unwrap();
    assert_eq!(payload.as_slice(), b"two");
}

#[test]
fn test_fresh_page_flushes_and_loads_as_empty() {
    // The header of a fresh page already stores its boundary, so a page
    // flushed before any write loads back as the empty page it is.
    let mut file: Vec<u8> = Vec::new();
    let page = Page::new(64);
    page.flush(&mut file, 0);
    let mut loaded = Page::new(64);
    loaded.load(&file, 0).unwrap();
    assert_eq!(loaded.block_start_pos(), 63);
    // An empty page holds no record: the chain from the boundary ends
    // immediately at block_size - 1.
    assert_eq!(loaded.block_start_pos(), loaded.contents().len() - 1);
}

#[test]
fn test_load_rejects_short_image() {
    let file: Vec<u8> = vec![0u8; 40];
    let mut page = Page::new(32);
    // Block 1 would need bytes 32..64, which the image does not hold.
    assert!(matches!(page.load(&file, 1), Err(CaskError::CorruptRecord)));
    assert_eq!(page.block_start_pos(), 31);
}

#[test]
fn test_load_rejects_corrupt_boundary() {
    let mut file: Vec<u8> = vec![0u8; 32];
    // A stored boundary at or past the block size is corrupt.
    file[0] = 32;
    let mut page = Page::new(32);
    assert!(matches!(page.load(&file, 0), Err(CaskError::CorruptRecord)));
}
