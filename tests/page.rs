use simpledb::file_layout::{block_count, block_offset};
use simpledb::page::{Date, Page, PageError};

#[test]
fn page_round_trip_scenario() {
    let mut p = Page::new(512);
    p.set_int(0, 42).unwrap();
    p.set_bytes(8, &[1, 2, 3, 4, 5]).unwrap();
    p.set_string(32, "Hello, SimpleDB!").unwrap();
    assert_eq!(p.get_int(0).unwrap(), 42);
    assert_eq!(p.get_bytes(8).unwrap(), vec![1, 2, 3, 4, 5]);
    assert_eq!(p.get_string(32).unwrap(), "Hello, SimpleDB!");
}

#[test]
fn integers_are_big_endian() {
    let mut p = Page::new(8);
    p.set_int(0, 0x01020304).unwrap();
    p.set_short(4, -2).unwrap();
    assert_eq!(p.contents()[..6].to_vec(), vec![1, 2, 3, 4, 0xff, 0xfe]);
    assert_eq!(p.get_short(4).unwrap(), -2);
    p.set_int(4, -1).unwrap();
    assert_eq!(p.get_int(4).unwrap(), -1);
}

#[test]
fn page_short_round_trip() {
    let mut p = Page::new(512);
    p.set_short(10, 12345).unwrap();
    assert_eq!(p.get_short(10).unwrap(), 12345);
    p.set_short(10, i16::MIN).unwrap();
    assert_eq!(p.get_short(10).unwrap(), i16::MIN);
}

#[test]
fn page_bool_round_trip() {
    let mut p = Page::new(512);
    p.set_bool(0, true).unwrap();
    p.set_bool(1, false).unwrap();
    assert!(p.get_bool(0).unwrap());
    assert!(!p.get_bool(1).unwrap());
    assert_eq!(p.contents()[0], 1);
}

#[test]
fn page_date_round_trip() {
    let date = Date::from_ymd(2024, 10, 15).unwrap();
    let mut p = Page::new(512);
    p.set_date(0, date).unwrap();
    assert_eq!(p.get_date(0).unwrap(), date);
    assert_eq!(Date::from_ymd(1, 1, 1), Some(Date { days_from_ce: 1 }));
    assert_eq!(Date::from_ymd(2024, 2, 30), None);
}

#[test]
fn writes_past_the_end_fail_and_change_nothing() {
    let mut p = Page::new(16);
    assert_eq!(p.set_int(13, 7), Err(PageError::BufferSizeExceeded));
    assert_eq!(p.set_short(15, 7), Err(PageError::BufferSizeExceeded));
    assert_eq!(p.set_bool(16, true), Err(PageError::BufferSizeExceeded));
    assert_eq!(p.set_string(4, "twelve bytes"), Err(PageError::BufferSizeExceeded));
    assert_eq!(p.set_bytes(0, &[0; 13]), Err(PageError::BufferSizeExceeded));
    assert_eq!(p.contents(), &vec![0u8; 16]);
    assert!(p.set_int(12, 7).is_ok());
    assert!(p.set_bytes(0, &[9; 12]).is_ok());
}

#[test]
fn reads_past_the_end_fail() {
    let mut p = Page::new(16);
    assert_eq!(p.get_int(13), Err(PageError::OutOfBounds));
    assert_eq!(p.get_short(15), Err(PageError::OutOfBounds));
    assert_eq!(p.get_bool(16), Err(PageError::OutOfBounds));
    p.set_int(0, 100).unwrap();
    assert_eq!(p.get_bytes(0), Err(PageError::OutOfBounds));
    p.set_int(0, -1).unwrap();
    assert_eq!(p.get_bytes(0), Err(PageError::OutOfBounds));
}

#[test]
fn invalid_utf8_is_refused() {
    let mut p = Page::new(16);
    p.set_bytes(0, &[0xff, 0xfe]).unwrap();
    assert_eq!(p.get_string(0), Err(PageError::InvalidUtf8));
    p.set_string(0, "héllo").unwrap();
    assert_eq!(p.get_int(0).unwrap(), 6);
    assert_eq!(p.get_string(0).unwrap(), "héllo");
}

#[test]
fn max_length_counts_prefix_and_bytes() {
    assert_eq!(Page::max_length(0), 4);
    assert_eq!(Page::max_length(16), 20);
}

#[test]
fn from_bytes_keeps_the_bytes() {
    let p = Page::from_bytes(vec![0, 0, 0, 3, 97, 98, 99]);
    assert_eq!(p.len(), 7);
    assert_eq!(p.get_string(0).unwrap(), "abc");
}

#[test]
fn file_block_arithmetic() {
    assert_eq!(block_count(0, 512), 0);
    assert_eq!(block_count(512, 512), 1);
    assert_eq!(block_count(1024, 512), 2);
    assert_eq!(block_count(1025, 512), 3);
    assert_eq!(block_count(u64::MAX, 2), u64::MAX / 2 + 1);
    assert_eq!(block_offset(3, 400), Some(1200));
    assert_eq!(block_offset(usize::MAX, 400), None);
}
