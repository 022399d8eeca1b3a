use jpl_runtime::memory::{read_word, Snapshot};

#[test]
fn read_word_is_little_endian() {
    let bytes = [0x01u8, 0x02, 0x03, 0x04, 0x05, 0x06, 0x07, 0x08];
    assert_eq!(read_word(&bytes, 0), 0x0807_0605_0403_0201);
    assert_eq!(read_word(&bytes, 0), u64::from_le_bytes(bytes));
}

#[test]
fn read_word_at_an_offset() {
    let bytes = [0xAAu8, 0xBB, 0xFF, 0xFF, 0xFF, 0xFF, 0xFF, 0xFF, 0xFF, 0xFF, 0xCC];
    assert_eq!(read_word(&bytes, 2), u64::MAX);
    assert_eq!(read_word(&bytes, 3), 0xCCFF_FFFF_FFFF_FFFF);
    assert_eq!(read_word(&bytes, 0), 0xFFFF_FFFF_FFFF_BBAA);
}

#[test]
fn read_word_of_zero_bytes_is_zero() {
    assert_eq!(read_word(&[0u8; 8], 0), 0);
}

#[test]
fn new_snapshot_holds_nothing() {
    let mem = Snapshot::new();
    assert!(mem.regions.is_empty());
    assert!(mem.floats.is_empty());
    assert_eq!(mem.read(0, 1), None);
    assert_eq!(mem.float_text(0), None);
}

#[test]
fn reading_no_bytes_needs_no_region() {
    let mem = Snapshot::new();
    assert_eq!(mem.read(0x1234, 0), Some(&[][..]));
}

#[test]
fn read_gives_the_bytes_at_the_address() {
    let mut mem = Snapshot::new();
    mem.map(100, vec![1, 2, 3, 4, 5]);
    assert_eq!(mem.read(100, 5), Some(&[1u8, 2, 3, 4, 5][..]));
    assert_eq!(mem.read(101, 3), Some(&[2u8, 3, 4][..]));
    assert_eq!(mem.read(104, 1), Some(&[5u8][..]));
    assert_eq!(mem.read(99, 2), None);
    assert_eq!(mem.read(104, 2), None);
    assert_eq!(mem.read(105, 1), None);
    assert_eq!(mem.read(0, 1), None);
}

#[test]
fn read_takes_the_first_region_that_holds_all_bytes() {
    let mut mem = Snapshot::new();
    mem.map(10, vec![1, 1]);
    mem.map(10, vec![2, 2, 2, 2]);
    mem.map(8, vec![3, 3, 3, 3, 3, 3, 3, 3]);
    assert_eq!(mem.read(10, 2), Some(&[1u8, 1][..]));
    assert_eq!(mem.read(10, 3), Some(&[2u8, 2, 2][..]));
    assert_eq!(mem.read(9, 3), Some(&[3u8, 3, 3][..]));
    assert_eq!(mem.read(8, 9), None);
}

#[test]
fn read_near_the_end_of_the_address_space() {
    let mut mem = Snapshot::new();
    mem.map(u64::MAX - 1, vec![7, 8, 9]);
    assert_eq!(mem.read(u64::MAX, 1), Some(&[8u8][..]));
    assert_eq!(mem.read(u64::MAX, 2), Some(&[8u8, 9][..]));
    assert_eq!(mem.read(u64::MAX, 3), None);
    assert_eq!(mem.read(u64::MAX, u64::MAX), None);
}

#[test]
fn map_keeps_the_order_of_the_regions() {
    let mut mem = Snapshot::new();
    mem.map(5, vec![1]);
    mem.map(9, vec![2, 3]);
    assert_eq!(mem.regions.len(), 2);
    assert_eq!(mem.regions[0].base, 5);
    assert_eq!(mem.regions[1].base, 9);
    assert_eq!(mem.regions[1].bytes, vec![2, 3]);
    assert!(mem.floats.is_empty());
}

#[test]
fn float_text_keeps_the_first_text_for_the_bits() {
    let mut mem = Snapshot::new();
    mem.set_float_text(1, "one".to_string());
    mem.set_float_text(2, "two".to_string());
    mem.set_float_text(1, "uno".to_string());
    assert_eq!(mem.float_text(1), Some("one"));
    assert_eq!(mem.float_text(2), Some("two"));
    assert_eq!(mem.float_text(3), None);
    assert_eq!(mem.floats.len(), 2);
    assert!(mem.regions.is_empty());
}
