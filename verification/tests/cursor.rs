use mini_redis_rs::cursor::get_decimal;
use mini_redis_rs::cursor::get_line;
use mini_redis_rs::cursor::get_u8;
use mini_redis_rs::cursor::peek_u8;
use mini_redis_rs::cursor::skip;
use mini_redis_rs::cursor::Cursor;
use mini_redis_rs::frame::Error;

#[test]
fn a_new_cursor_stands_at_the_start() {
    let cursor = Cursor::new(b"abc");
    assert_eq!(cursor.position(), 0);
    assert_eq!(cursor.remaining(), 3);
    assert!(cursor.has_remaining());
    assert_eq!(cursor.get_ref(), b"abc");
}

#[test]
fn get_u8_reads_and_moves() {
    let mut cursor = Cursor::new(b"ab");
    assert!(matches!(get_u8(&mut cursor), Ok(b'a')));
    assert_eq!(cursor.position(), 1);
    assert!(matches!(get_u8(&mut cursor), Ok(b'b')));
    assert_eq!(cursor.position(), 2);
    assert!(matches!(get_u8(&mut cursor), Err(Error::Incomplete)));
    assert_eq!(cursor.position(), 2);
}

#[test]
fn peek_u8_reads_and_stays() {
    let mut cursor = Cursor::new(b"ab");
    assert!(matches!(peek_u8(&mut cursor), Ok(b'a')));
    assert_eq!(cursor.position(), 0);
    cursor.set_position(2);
    assert!(matches!(peek_u8(&mut cursor), Err(Error::Incomplete)));
}

#[test]
fn skip_moves_only_when_enough_bytes_remain() {
    let mut cursor = Cursor::new(b"abcdef");
    assert!(skip(&mut cursor, 4).is_ok());
    assert_eq!(cursor.position(), 4);
    assert!(matches!(skip(&mut cursor, 3), Err(Error::Incomplete)));
    assert_eq!(cursor.position(), 4);
    assert!(skip(&mut cursor, 2).is_ok());
    assert_eq!(cursor.position(), 6);
    assert!(skip(&mut cursor, 0).is_ok());
    assert!(matches!(skip(&mut cursor, 1), Err(Error::Incomplete)));
}

#[test]
fn a_position_past_the_end_leaves_nothing_to_read() {
    let mut cursor = Cursor::new(b"ab");
    cursor.set_position(5);
    assert_eq!(cursor.remaining(), 0);
    assert!(!cursor.has_remaining());
    assert!(matches!(get_u8(&mut cursor), Err(Error::Incomplete)));
    assert!(matches!(get_line(&mut cursor), Err(Error::Incomplete)));
    assert!(skip(&mut cursor, 0).is_ok());
    assert_eq!(cursor.position(), 5);
}

#[test]
fn get_line_stops_at_the_first_cr_lf() {
    let mut cursor = Cursor::new(b"one\r\ntwo\r\n");
    assert_eq!(get_line(&mut cursor).unwrap(), b"one");
    assert_eq!(cursor.position(), 5);
    assert_eq!(get_line(&mut cursor).unwrap(), b"two");
    assert_eq!(cursor.position(), 10);
    assert!(matches!(get_line(&mut cursor), Err(Error::Incomplete)));
}

#[test]
fn get_line_takes_lone_cr_and_lf_as_text() {
    let mut cursor = Cursor::new(b"a\rb\nc\r\r\n");
    assert_eq!(get_line(&mut cursor).unwrap(), b"a\rb\nc\r");
    assert_eq!(cursor.position(), 8);
}

#[test]
fn get_line_without_cr_lf_is_incomplete_and_stays() {
    let mut cursor = Cursor::new(b"partial\r");
    assert!(matches!(get_line(&mut cursor), Err(Error::Incomplete)));
    assert_eq!(cursor.position(), 0);
    let mut empty = Cursor::new(b"");
    assert!(matches!(get_line(&mut empty), Err(Error::Incomplete)));
}

#[test]
fn get_decimal_reads_a_signed_number() {
    let mut cursor = Cursor::new(b"-17\r\nrest");
    assert!(matches!(get_decimal(&mut cursor), Ok(-17)));
    assert_eq!(cursor.position(), 5);
}

#[test]
fn get_decimal_refuses_what_is_no_number() {
    let mut cursor = Cursor::new(b"1x\r\n");
    match get_decimal(&mut cursor) {
        Err(Error::Other(text)) => assert_eq!(text, "protocol error; invalid frame format"),
        other => panic!("unexpected result {:?}", other),
    }
    assert_eq!(cursor.position(), 4);
    let mut cursor = Cursor::new(b"12");
    assert!(matches!(get_decimal(&mut cursor), Err(Error::Incomplete)));
    assert_eq!(cursor.position(), 0);
}
