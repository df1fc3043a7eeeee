use bytes::Bytes;
use kv_db::connection::Connection;
use kv_db::decimal::write_decimal;
use kv_db::frame::get_decimal;
use kv_db::frame::get_descriptor;
use kv_db::frame::get_line;
use kv_db::frame::skip;
use kv_db::frame::write_value;
use kv_db::frame::Cursor;
use kv_db::frame::Error;
use kv_db::frame::Frame;
use kv_db::frame::FrameErrorKind;

fn parse_all(data: &[u8]) -> Result<(Frame, usize), Error> {
    let mut cursor = Cursor::new(data);
    let frame = Frame::parse(&mut cursor)?;
    Ok((frame, cursor.position()))
}

fn check_all(data: &[u8]) -> Result<usize, Error> {
    let mut cursor = Cursor::new(data);
    Frame::check(&mut cursor)?;
    Ok(cursor.position())
}

fn same(a: &Frame, b: &Frame) -> bool {
    match (a, b) {
        (Frame::Error(x), Frame::Error(y)) => x == y,
        (Frame::Simple(x), Frame::Simple(y)) => x == y,
        (Frame::Integer(x), Frame::Integer(y)) => x == y,
        (Frame::Bulk(x), Frame::Bulk(y)) => x == y,
        (Frame::Array(x), Frame::Array(y)) => {
            x.len() == y.len() && x.iter().zip(y.iter()).all(|(p, q)| same(p, q))
        }
        _ => false,
    }
}

fn samples() -> Vec<Frame> {
    vec![
        Frame::Simple("OK".to_string()),
        Frame::Simple("".to_string()),
        Frame::Simple("caf\u{e9} \r alone \n alone".to_string()),
        Frame::Error(FrameErrorKind::NotFound),
        Frame::Error(FrameErrorKind::InternalError),
        Frame::Integer(0),
        Frame::Integer(18446744073709551615),
        Frame::Bulk(Bytes::from(Vec::new())),
        Frame::Bulk(Bytes::from(vec![0, 13, 10, 255, b'*', b'$'])),
        Frame::Array(Vec::new()),
        Frame::Array(vec![
            Frame::Simple("set".to_string()),
            Frame::Simple("hello".to_string()),
            Frame::Bulk(Bytes::from("world".to_string())),
        ]),
        Frame::Array(vec![
            Frame::Array(vec![Frame::Integer(7), Frame::Array(Vec::new())]),
            Frame::Error(FrameErrorKind::NotFound),
            Frame::Bulk(Bytes::from("\r\n".to_string())),
        ]),
    ]
}

#[test]
fn parses_a_simple_frame() {
    let data = b"+OK\r\n";
    assert_eq!(check_all(data).unwrap(), 5);
    let (frame, end) = parse_all(data).unwrap();
    assert_eq!(end, 5);
    match frame {
        Frame::Simple(s) => assert_eq!(s, "OK"),
        other => panic!("unexpected: {:?}", other),
    }
}

#[test]
fn serialized_bytes_are_exact() {
    assert_eq!(Connection::write_frame(&Frame::Simple("PONG".to_string())), b"+PONG\r\n".to_vec());
    assert_eq!(Connection::write_frame(&Frame::Error(FrameErrorKind::NotFound)), b"-not found\r\n".to_vec());
    assert_eq!(
        Connection::write_frame(&Frame::Error(FrameErrorKind::InternalError)),
        b"-internal error\r\n".to_vec()
    );
    assert_eq!(Connection::write_frame(&Frame::Integer(1234567890)), b":1234567890\r\n".to_vec());
    assert_eq!(Connection::write_frame(&Frame::Bulk(Bytes::from("bb".to_string()))), b"$2\r\nbb\r\n".to_vec());
    assert_eq!(Connection::write_frame(&Frame::Array(Vec::new())), b"*0\r\n".to_vec());
    let mut request = Frame::array();
    request.push_string("set".to_string());
    request.push_string("hello".to_string());
    request.push_bulk(Bytes::from("world".to_string()));
    assert_eq!(
        Connection::write_frame(&request),
        b"*3\r\n+set\r\n+hello\r\n$5\r\nworld\r\n".to_vec()
    );
}

#[test]
fn write_value_appends_to_what_is_there() {
    let mut out = b"abc".to_vec();
    write_value(&Frame::Integer(5), &mut out);
    assert_eq!(out, b"abc:5\r\n".to_vec());
}

#[test]
fn parse_of_serialize_is_the_frame() {
    for frame in samples() {
        let bytes = Connection::write_frame(&frame);
        assert_eq!(check_all(&bytes).unwrap(), bytes.len());
        let (read, end) = parse_all(&bytes).unwrap();
        assert_eq!(end, bytes.len());
        assert!(same(&read, &frame), "{:?} came back as {:?}", frame, read);
    }
}

#[test]
fn every_truncation_is_incomplete() {
    for frame in samples() {
        let bytes = Connection::write_frame(&frame);
        for n in 0..bytes.len() {
            assert!(
                matches!(check_all(&bytes[..n]), Err(Error::Incomplete)),
                "{:?} cut at {}",
                frame,
                n
            );
        }
    }
}

#[test]
fn simple_string_with_crlf_does_not_come_back() {
    let frame = Frame::Simple("a\r\nb".to_string());
    let bytes = Connection::write_frame(&frame);
    assert_eq!(bytes, b"+a\r\nb\r\n".to_vec());
    let (read, end) = parse_all(&bytes).unwrap();
    assert_eq!(end, 4);
    assert!(same(&read, &Frame::Simple("a".to_string())));
    assert_eq!(check_all(&bytes[..4]).unwrap(), 4);
}

#[test]
fn parse_reads_one_frame_and_stops() {
    let data = b"$3\r\nabc\r\n+next\r\n";
    let (frame, end) = parse_all(data).unwrap();
    assert_eq!(end, 9);
    assert!(same(&frame, &Frame::Bulk(Bytes::from("abc".to_string()))));
    let mut cursor = Cursor::new(&data[..]);
    cursor.set_position(9);
    let frame = Frame::parse(&mut cursor).unwrap();
    assert!(same(&frame, &Frame::Simple("next".to_string())));
    assert_eq!(cursor.position(), 16);
}

#[test]
fn unknown_descriptor_is_a_protocol_error() {
    match check_all(b"?what\r\n") {
        Err(Error::Other(text)) => assert_eq!(text, "protocol error; invalid frame format"),
        other => panic!("unexpected: {:?}", other),
    }
    assert!(matches!(parse_all(b"?what\r\n"), Err(Error::Other(_))));
    assert!(matches!(check_all(b"*2\r\n+a\r\n!b\r\n"), Err(Error::Other(_))));
}

#[test]
fn unknown_error_kind_is_a_protocol_error() {
    assert_eq!(check_all(b"-bad kind\r\n").unwrap(), 11);
    assert!(matches!(parse_all(b"-bad kind\r\n"), Err(Error::Other(_))));
    assert!(matches!(parse_all(b"-not found \r\n"), Err(Error::Other(_))));
}

#[test]
fn invalid_utf8_in_a_simple_frame_is_a_protocol_error() {
    assert_eq!(check_all(b"+\xff\r\n").unwrap(), 4);
    assert!(matches!(parse_all(b"+\xff\r\n"), Err(Error::Other(_))));
}

#[test]
fn lengths_and_counts_are_digits_and_nothing_else() {
    assert!(matches!(parse_all(b":\r\n"), Err(Error::Other(_))));
    assert!(matches!(parse_all(b":abc\r\n"), Err(Error::Other(_))));
    assert!(matches!(parse_all(b":18446744073709551616\r\n"), Err(Error::Other(_))));
    assert!(matches!(parse_all(b":-5\r\n"), Err(Error::Other(_))));
    assert!(matches!(parse_all(b":12abc\r\n"), Err(Error::Other(_))));
    assert!(matches!(parse_all(b":+5\r\n"), Err(Error::Other(_))));
    assert!(matches!(parse_all(b":-0\r\n"), Err(Error::Other(_))));
    assert!(matches!(parse_all(b":+\r\n"), Err(Error::Other(_))));
    assert!(matches!(parse_all(b": 5\r\n"), Err(Error::Other(_))));
    assert!(matches!(parse_all(b":5 \r\n"), Err(Error::Other(_))));
    assert!(matches!(check_all(b":12abc\r\n"), Err(Error::Other(_))));
    assert!(matches!(check_all(b"$x\r\n"), Err(Error::Other(_))));
    assert!(matches!(check_all(b"$+3\r\nfoo\r\n"), Err(Error::Other(_))));
    assert!(matches!(check_all(b"*1x\r\n+a\r\n"), Err(Error::Other(_))));
    assert!(same(&parse_all(b":42\r\n").unwrap().0, &Frame::Integer(42)));
    assert!(same(&parse_all(b":007\r\n").unwrap().0, &Frame::Integer(7)));
    assert!(same(&parse_all(b":0\r\n").unwrap().0, &Frame::Integer(0)));
    assert!(same(
        &parse_all(b":18446744073709551615\r\n").unwrap().0,
        &Frame::Integer(18446744073709551615)
    ));
    assert!(same(
        &parse_all(b"$03\r\nfoo\r\n").unwrap().0,
        &Frame::Bulk(Bytes::from("foo".to_string()))
    ));
}

#[test]
fn bulk_body_must_be_followed_by_crlf() {
    assert!(matches!(check_all(b"$3\r\nfooXY"), Err(Error::Other(_))));
    assert!(matches!(parse_all(b"$3\r\nfooXY"), Err(Error::Other(_))));
    assert!(matches!(check_all(b"$3\r\nfoo\rY"), Err(Error::Other(_))));
    assert!(matches!(check_all(b"$3\r\nfooX\n"), Err(Error::Other(_))));
    assert!(matches!(parse_all(b"$3\r\nfoo\n\r"), Err(Error::Other(_))));
    assert!(matches!(check_all(b"$3\r\nfooX"), Err(Error::Incomplete)));
    assert!(matches!(check_all(b"*2\r\n$3\r\nfooXY+a\r\n"), Err(Error::Other(_))));
    assert_eq!(check_all(b"$3\r\nfoo\r\n").unwrap(), 9);
    assert_eq!(check_all(b"$0\r\n\r\n").unwrap(), 6);
    assert!(matches!(check_all(b"$0\r\nab"), Err(Error::Other(_))));
}

#[test]
fn bulk_needs_all_its_bytes_and_the_crlf() {
    assert!(matches!(check_all(b"$5\r\nwor"), Err(Error::Incomplete)));
    assert!(matches!(check_all(b"$5\r\nworld"), Err(Error::Incomplete)));
    assert!(matches!(check_all(b"$5\r\nworld\r"), Err(Error::Incomplete)));
    assert_eq!(check_all(b"$5\r\nworld\r\n").unwrap(), 11);
    assert!(matches!(parse_all(b"$5\r\nworld\r"), Err(Error::Incomplete)));
    assert!(matches!(check_all(b"$18446744073709551615\r\nab\r\n"), Err(Error::Incomplete)));
    assert!(matches!(parse_all(b"$18446744073709551614\r\nab\r\n"), Err(Error::Incomplete)));
}

#[test]
fn array_with_a_huge_count_is_incomplete() {
    assert!(matches!(check_all(b"*18446744073709551615\r\n+a\r\n"), Err(Error::Incomplete)));
    assert!(matches!(parse_all(b"*18446744073709551615\r\n+a\r\n"), Err(Error::Incomplete)));
}

#[test]
fn cursor_helpers_move_as_they_read() {
    let data = b"+line\r\nrest";
    let mut cursor = Cursor::new(&data[..]);
    assert_eq!(cursor.get_ref(), &data[..]);
    assert_eq!(cursor.remaining(), 11);
    assert!(cursor.has_remaining());
    assert_eq!(get_descriptor(&mut cursor).unwrap(), b'+');
    assert_eq!(cursor.position(), 1);
    assert_eq!(get_line(&mut cursor).unwrap(), b"line");
    assert_eq!(cursor.position(), 7);
    assert!(matches!(get_line(&mut cursor), Err(Error::Incomplete)));
    assert_eq!(cursor.position(), 7);
    assert!(matches!(skip(&mut cursor, 5), Err(Error::Incomplete)));
    assert_eq!(cursor.position(), 7);
    skip(&mut cursor, 4).unwrap();
    assert_eq!(cursor.position(), 11);
    assert!(!cursor.has_remaining());
    assert_eq!(cursor.remaining(), 0);
    assert!(matches!(get_descriptor(&mut cursor), Err(Error::Incomplete)));
    cursor.set_position(50);
    assert_eq!(cursor.remaining(), 0);
    assert!(matches!(skip(&mut cursor, 0), Err(Error::Incomplete)));
    assert!(matches!(Frame::check(&mut cursor), Err(Error::Incomplete)));
}

#[test]
fn get_line_on_an_empty_buffer_is_incomplete() {
    let mut cursor = Cursor::new(b"");
    assert!(matches!(get_line(&mut cursor), Err(Error::Incomplete)));
    assert!(matches!(Frame::check(&mut cursor), Err(Error::Incomplete)));
    let mut cursor = Cursor::new(b"\r");
    assert!(matches!(get_line(&mut cursor), Err(Error::Incomplete)));
}

#[test]
fn get_decimal_reads_a_line() {
    let mut cursor = Cursor::new(b"120\r\nx");
    assert_eq!(get_decimal(&mut cursor).unwrap(), 120);
    assert_eq!(cursor.position(), 5);
    let mut cursor = Cursor::new(b"x\r\n");
    assert!(matches!(get_decimal(&mut cursor), Err(Error::Other(_))));
    let mut cursor = Cursor::new(b"12");
    assert!(matches!(get_decimal(&mut cursor), Err(Error::Incomplete)));
    let mut cursor = Cursor::new(b"12 \r\n");
    assert!(matches!(get_decimal(&mut cursor), Err(Error::Other(_))));
    let mut cursor = Cursor::new(b"\r\n");
    assert!(matches!(get_decimal(&mut cursor), Err(Error::Other(_))));
}

#[test]
fn decimal_digits_are_exact() {
    let mut out = Vec::new();
    write_decimal(0, &mut out);
    out.push(b' ');
    write_decimal(9, &mut out);
    out.push(b' ');
    write_decimal(10, &mut out);
    out.push(b' ');
    write_decimal(4096, &mut out);
    out.push(b' ');
    write_decimal(18446744073709551615, &mut out);
    assert_eq!(out, b"0 9 10 4096 18446744073709551615".to_vec());
}

#[test]
fn error_kinds_have_names() {
    assert_eq!(FrameErrorKind::NotFound.to_string(), "not found");
    assert_eq!(FrameErrorKind::InternalError.to_string(), "internal error");
    assert_eq!(FrameErrorKind::NotFound.as_str(), "not found");
    assert_eq!(FrameErrorKind::from_str("not found"), Ok(FrameErrorKind::NotFound));
    assert_eq!(FrameErrorKind::from_str("internal error"), Ok(FrameErrorKind::InternalError));
    assert_eq!(FrameErrorKind::from_str("Not Found"), Err(()));
    assert_eq!(FrameErrorKind::from_bytes(b"internal error"), Some(FrameErrorKind::InternalError));
    assert_eq!(FrameErrorKind::from_bytes(b""), None);
}

#[test]
fn frame_errors_have_words() {
    assert_eq!(Error::Incomplete.to_string(), "stream ended early");
    assert_eq!(Error::Other("protocol error; invalid frame format".to_string()).to_string(), "protocol error; invalid frame format");
}

#[test]
fn clone_gives_the_same_frame() {
    for frame in samples() {
        assert!(same(&frame.clone(), &frame));
    }
}

#[test]
fn array_frames_grow_at_the_end() {
    let mut frame = Frame::array();
    assert!(same(&frame, &Frame::Array(Vec::new())));
    frame.push_bulk(Bytes::from(vec![1, 2]));
    frame.push_string("s".to_string());
    assert!(same(
        &frame,
        &Frame::Array(vec![Frame::Bulk(Bytes::from(vec![1, 2])), Frame::Simple("s".to_string())])
    ));
}

#[test]
fn wire_safety_is_about_crlf_in_simple_strings() {
    for frame in samples() {
        assert!(frame.is_wire_safe(), "{:?}", frame);
    }
    assert!(!Frame::Simple("a\r\nb".to_string()).is_wire_safe());
    assert!(!Frame::Simple("\r\n".to_string()).is_wire_safe());
    assert!(Frame::Simple("\n\r".to_string()).is_wire_safe());
    assert!(!Frame::Array(vec![
        Frame::Integer(1),
        Frame::Array(vec![Frame::Simple("x\r\n".to_string())]),
    ])
    .is_wire_safe());
}
