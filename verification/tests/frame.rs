use bytes::Bytes;
use mini_redis_rs::cursor::Cursor;
use mini_redis_rs::frame::to_length;
use mini_redis_rs::frame::Error;
use mini_redis_rs::frame::Frame;

fn checked(bytes: &[u8]) -> Result<usize, Error> {
    let mut cursor = Cursor::new(bytes);
    Frame::check(&mut cursor)?;
    Ok(cursor.position())
}

fn parsed(bytes: &[u8]) -> Result<(Frame, usize), Error> {
    let mut cursor = Cursor::new(bytes);
    let frame = Frame::parse(&mut cursor)?;
    Ok((frame, cursor.position()))
}

fn same(a: &Frame, b: &Frame) -> bool {
    match (a, b) {
        (Frame::Simple(x), Frame::Simple(y)) => x == y,
        (Frame::Error(x), Frame::Error(y)) => x == y,
        (Frame::Integer(x), Frame::Integer(y)) => x == y,
        (Frame::Bulk(x), Frame::Bulk(y)) => x == y,
        (Frame::Null, Frame::Null) => true,
        (Frame::Array(x), Frame::Array(y)) => {
            x.len() == y.len() && x.iter().zip(y.iter()).all(|(p, q)| same(p, q))
        }
        _ => false,
    }
}

fn message(result: Result<usize, Error>) -> String {
    match result {
        Err(Error::Other(text)) => text,
        other => panic!("unexpected result {:?}", other),
    }
}

fn parse_message(bytes: &[u8]) -> String {
    match parsed(bytes) {
        Err(Error::Other(text)) => text,
        other => panic!("unexpected result {:?}", other),
    }
}

fn round_trips(frame: Frame) {
    let bytes = frame.encode().unwrap();
    assert_eq!(checked(&bytes).unwrap(), bytes.len());
    let (back, end) = parsed(&bytes).unwrap();
    assert_eq!(end, bytes.len());
    assert!(same(&frame, &back), "{:?} came back as {:?}", frame, back);
}

#[test]
fn bulk_world_encodes_to_its_wire_bytes() {
    let frame = Frame::Bulk(Bytes::from_static(b"World"));
    assert_eq!(frame.encode().unwrap(), b"$5\r\nWorld\r\n".to_vec());
}

#[test]
fn bulk_world_decodes_from_its_wire_bytes() {
    let (frame, end) = parsed(b"$5\r\nWorld\r\n").unwrap();
    assert_eq!(end, 11);
    assert!(same(&frame, &Frame::Bulk(Bytes::from_static(b"World"))));
}

#[test]
fn null_encodes_to_five_bytes_and_checks_complete() {
    let bytes = Frame::Null.encode().unwrap();
    assert_eq!(bytes, b"$-1\r\n".to_vec());
    assert_eq!(checked(&bytes).unwrap(), 5);
}

#[test]
fn null_is_not_an_empty_bulk() {
    let (null, _) = parsed(b"$-1\r\n").unwrap();
    let (empty, end) = parsed(b"$0\r\n\r\n").unwrap();
    assert!(matches!(null, Frame::Null));
    assert!(same(&empty, &Frame::Bulk(Bytes::new())));
    assert_eq!(end, 6);
}

#[test]
fn each_kind_of_frame_has_its_wire_bytes() {
    assert_eq!(Frame::Simple("OK".to_string()).encode().unwrap(), b"+OK\r\n".to_vec());
    assert_eq!(Frame::Error("bad".to_string()).encode().unwrap(), b"-bad\r\n".to_vec());
    assert_eq!(Frame::Integer(-12).encode().unwrap(), b":-12\r\n".to_vec());
    assert_eq!(Frame::Integer(0).encode().unwrap(), b":0\r\n".to_vec());
    assert_eq!(Frame::Bulk(Bytes::new()).encode().unwrap(), b"$0\r\n\r\n".to_vec());
    assert_eq!(Frame::array().encode().unwrap(), b"*0\r\n".to_vec());
}

#[test]
fn a_flat_array_is_encoded_item_by_item() {
    let mut frame = Frame::array();
    frame.push_bulk(Bytes::from_static(b"get"));
    frame.push_int(7);
    assert_eq!(frame.encode().unwrap(), b"*2\r\n$3\r\nget\r\n:7\r\n".to_vec());
    let frame = Frame::Array(vec![
        Frame::Simple("a".to_string()),
        Frame::Null,
        Frame::Error("e".to_string()),
    ]);
    assert_eq!(frame.encode().unwrap(), b"*3\r\n+a\r\n$-1\r\n-e\r\n".to_vec());
}

#[test]
fn a_nested_array_is_not_encoded() {
    let frame = Frame::Array(vec![Frame::Integer(1), Frame::array()]);
    match frame.encode() {
        Err(Error::Other(text)) => {
            assert_eq!(text, "protocol error; nested arrays cannot be encoded")
        }
        other => panic!("unexpected result {:?}", other),
    }
}

#[test]
fn frames_come_back_from_their_bytes() {
    round_trips(Frame::Simple("OK".to_string()));
    round_trips(Frame::Simple(String::new()));
    round_trips(Frame::Simple("caf\u{e9} \u{1f980}".to_string()));
    round_trips(Frame::Simple("lone \r and \n".to_string()));
    round_trips(Frame::Error("ERR unknown command".to_string()));
    round_trips(Frame::Integer(0));
    round_trips(Frame::Integer(i64::MAX));
    round_trips(Frame::Integer(i64::MIN));
    round_trips(Frame::Bulk(Bytes::from_static(b"World")));
    round_trips(Frame::Bulk(Bytes::from_static(b"\r\n$-1\r\n\x00\xff")));
    round_trips(Frame::Bulk(Bytes::new()));
    round_trips(Frame::Null);
    round_trips(Frame::array());
    round_trips(Frame::Array(vec![
        Frame::Bulk(Bytes::from_static(b"set")),
        Frame::Bulk(Bytes::from_static(b"Hello")),
        Frame::Bulk(Bytes::from_static(b"World")),
        Frame::Integer(-5),
        Frame::Null,
        Frame::Simple("x".to_string()),
        Frame::Error("y".to_string()),
    ]));
}

#[test]
fn text_with_cr_lf_does_not_come_back_whole() {
    let bytes = Frame::Simple("a\r\nb".to_string()).encode().unwrap();
    assert_eq!(bytes, b"+a\r\nb\r\n".to_vec());
    let (frame, end) = parsed(&bytes).unwrap();
    assert!(same(&frame, &Frame::Simple("a".to_string())));
    assert_eq!(end, 4);
}

#[test]
fn nested_arrays_are_read() {
    let bytes = b"*2\r\n*2\r\n:1\r\n*0\r\n+x\r\n";
    assert_eq!(checked(bytes).unwrap(), bytes.len());
    let (frame, end) = parsed(bytes).unwrap();
    assert_eq!(end, bytes.len());
    let expected = Frame::Array(vec![
        Frame::Array(vec![Frame::Integer(1), Frame::array()]),
        Frame::Simple("x".to_string()),
    ]);
    assert!(same(&frame, &expected));
}

#[test]
fn reading_stops_at_the_end_of_the_frame() {
    let bytes = b":1\r\n:2\r\n";
    assert_eq!(checked(bytes).unwrap(), 4);
    let (frame, end) = parsed(bytes).unwrap();
    assert!(same(&frame, &Frame::Integer(1)));
    assert_eq!(end, 4);
    let mut cursor = Cursor::new(bytes);
    cursor.set_position(4);
    assert!(same(&Frame::parse(&mut cursor).unwrap(), &Frame::Integer(2)));
    assert_eq!(cursor.position(), 8);
}

#[test]
fn every_proper_prefix_of_a_frame_is_incomplete() {
    let frames = [
        Frame::Simple("OK".to_string()),
        Frame::Error("no".to_string()),
        Frame::Integer(-120),
        Frame::Bulk(Bytes::from_static(b"World")),
        Frame::Null,
        Frame::Array(vec![Frame::Bulk(Bytes::from_static(b"get")), Frame::Integer(3)]),
    ];
    for frame in frames.iter() {
        let bytes = frame.encode().unwrap();
        for k in 0..bytes.len() {
            assert!(matches!(checked(&bytes[..k]), Err(Error::Incomplete)), "{:?} at {}", frame, k);
            assert!(matches!(parsed(&bytes[..k]), Err(Error::Incomplete)), "{:?} at {}", frame, k);
        }
    }
}

#[test]
fn an_unknown_type_byte_is_reported_with_its_number() {
    assert_eq!(message(checked(b"!oops\r\n")), "protocol error; invalid frame type byte `33`");
    assert_eq!(message(checked(b"\x00")), "protocol error; invalid frame type byte `0`");
    assert_eq!(message(checked(b"\xff")), "protocol error; invalid frame type byte `255`");
    assert_eq!(parse_message(b"hello"), "protocol error; invalid frame type byte `104`");
}

#[test]
fn a_field_that_is_no_number_is_reported() {
    let expected = "protocol error; invalid frame format";
    assert_eq!(message(checked(b":abc\r\n")), expected);
    assert_eq!(message(checked(b":12abc\r\n")), expected);
    assert_eq!(message(checked(b":+5\r\n")), expected);
    assert_eq!(message(checked(b":\r\n")), expected);
    assert_eq!(message(checked(b":-\r\n")), expected);
    assert_eq!(message(checked(b":9223372036854775808\r\n")), expected);
    assert_eq!(message(checked(b"$5x\r\nWorld\r\n")), expected);
    assert_eq!(message(checked(b"*x\r\n")), expected);
    assert_eq!(parse_message(b":abc\r\n"), expected);
    assert_eq!(parse_message(b"$\r\n\r\n"), expected);
}

#[test]
fn a_negative_length_other_than_the_null_marker_is_reported() {
    let expected = "protocol error; invalid frame format";
    assert_eq!(message(checked(b"$-2\r\n")), expected);
    assert_eq!(message(checked(b"$-10\r\n")), expected);
    assert_eq!(message(checked(b"$-1x\r\n")), expected);
    assert_eq!(message(checked(b"$-\r\n")), expected);
    assert_eq!(message(checked(b"*-1\r\n")), expected);
    assert_eq!(parse_message(b"$-2\r\n"), expected);
    assert_eq!(parse_message(b"*-1\r\n"), expected);
}

#[test]
fn text_that_is_not_utf8_passes_the_check_and_fails_to_parse() {
    let bytes = b"+\xff\xfe\r\n";
    assert_eq!(checked(bytes).unwrap(), 5);
    assert_eq!(parse_message(bytes), "protocol error; invalid frame format");
    let bytes = b"-\xc3\r\n";
    assert_eq!(checked(bytes).unwrap(), 4);
    assert_eq!(parse_message(bytes), "protocol error; invalid frame format");
}

#[test]
fn a_bulk_with_too_few_bytes_is_incomplete() {
    assert!(matches!(checked(b"$3\r\nfo"), Err(Error::Incomplete)));
    assert!(matches!(checked(b"$3\r\nfoo"), Err(Error::Incomplete)));
    assert!(matches!(checked(b"$3\r\nfoo\r"), Err(Error::Incomplete)));
    assert_eq!(checked(b"$3\r\nfoo\r\n").unwrap(), 9);
    assert!(matches!(parsed(b"$3\r\nfo"), Err(Error::Incomplete)));
    assert!(matches!(checked(b"$9223372036854775807\r\nfoo\r\n"), Err(Error::Incomplete)));
}

#[test]
fn an_array_with_too_few_items_is_incomplete() {
    assert!(matches!(checked(b"*2\r\n:1\r\n"), Err(Error::Incomplete)));
    assert!(matches!(parsed(b"*2\r\n:1\r\n"), Err(Error::Incomplete)));
    assert!(matches!(checked(b"*9223372036854775807\r\n:1\r\n"), Err(Error::Incomplete)));
}

#[test]
fn an_error_in_an_item_is_the_error_of_the_array() {
    assert_eq!(
        message(checked(b"*2\r\n:1\r\n?\r\n")),
        "protocol error; invalid frame type byte `63`"
    );
    assert_eq!(parse_message(b"*2\r\n:x\r\n:1\r\n"), "protocol error; invalid frame format");
}

#[test]
fn an_error_leaves_the_position_where_it_was() {
    let inputs: [&[u8]; 6] =
        [b":1\r\n*2\r\n:1\r\n", b":1\r\n$5\r\nWor", b":1\r\n:x\r\n", b":1\r\n?", b":1\r\n", b":1\r\n*1\r\n+\xff\r\n"];
    for bytes in inputs.iter() {
        let mut cursor = Cursor::new(bytes);
        cursor.set_position(4);
        assert!(Frame::parse(&mut cursor).is_err());
        assert_eq!(cursor.position(), 4);
    }
    for bytes in inputs[..5].iter() {
        let mut cursor = Cursor::new(bytes);
        cursor.set_position(4);
        assert!(Frame::check(&mut cursor).is_err());
        assert_eq!(cursor.position(), 4);
    }
}

#[test]
fn no_bytes_are_incomplete() {
    assert!(matches!(checked(b""), Err(Error::Incomplete)));
    assert!(matches!(parsed(b""), Err(Error::Incomplete)));
    assert!(matches!(checked(b"$"), Err(Error::Incomplete)));
    assert!(matches!(checked(b"$-"), Err(Error::Incomplete)));
    assert!(matches!(checked(b"$-1\r"), Err(Error::Incomplete)));
}

#[test]
fn a_clone_is_the_same_frame() {
    let frame = Frame::Array(vec![
        Frame::Bulk(Bytes::from_static(b"World")),
        Frame::Simple("OK".to_string()),
        Frame::Array(vec![Frame::Integer(1), Frame::Null, Frame::Error("e".to_string())]),
    ]);
    assert!(same(&frame, &frame.clone()));
}

#[test]
fn a_frame_compares_with_a_string() {
    assert!(Frame::Simple("OK".to_string()) == "OK");
    assert!(Frame::Simple("OK".to_string()) != "ok");
    assert!(Frame::Simple("OK".to_string()) != "OK ");
    assert!(Frame::Bulk(Bytes::from_static(b"World")) == "World");
    assert!(Frame::Bulk(Bytes::from_static(b"World")) != "Worl");
    assert!(Frame::Bulk(Bytes::from_static("caf\u{e9}".as_bytes())) == "caf\u{e9}");
    assert!(Frame::Error("OK".to_string()) != "OK");
    assert!(Frame::Integer(1) != "1");
    assert!(Frame::Null != "");
    assert!(Frame::array() != "");
}

#[test]
fn push_appends_to_an_array() {
    let mut frame = Frame::array();
    frame.push_int(1);
    frame.push_bulk(Bytes::from_static(b"two"));
    frame.push_int(-3);
    let expected = Frame::Array(vec![
        Frame::Integer(1),
        Frame::Bulk(Bytes::from_static(b"two")),
        Frame::Integer(-3),
    ]);
    assert!(same(&frame, &expected));
}

#[test]
fn an_error_is_made_from_its_text() {
    match Error::from("boom".to_string()) {
        Error::Other(text) => assert_eq!(text, "boom"),
        other => panic!("unexpected error {:?}", other),
    }
}

#[test]
fn to_length_takes_what_fits() {
    assert_eq!(to_length(0), Some(0));
    assert_eq!(to_length(4096), Some(4096));
    assert_eq!(to_length(-1), None);
    assert_eq!(to_length(i64::MIN), None);
    if usize::BITS >= 64 {
        assert_eq!(to_length(i64::MAX), Some(i64::MAX as usize));
    }
}
