use nats_core::error::{NError, ERROR_MESSAGE_SIZE_TOO_LARGE, ERROR_PARSE};
use nats_core::parser::{ParseResult, Parser, BUF_LEN};

#[test]
fn test_display() {
    let e = NError::new(ERROR_PARSE);
    println!("{}", e.description());
    assert_eq!(e.description(), "parse error");
    assert_eq!(NError::new(ERROR_MESSAGE_SIZE_TOO_LARGE).description(), "unknown error");
}

#[test]
fn test_process_sub() {
    let buf = "subject 5".as_bytes();
    let r = Parser::process_sub(buf);
    assert!(r.is_ok());
    if let ParseResult::Sub(sub) = r.unwrap() {
        assert_eq!(sub.subject, "subject");
        assert_eq!(sub.sid, "5");
        assert!(sub.queue.is_none());
    }
}

#[test]
fn test_sub() {
    let mut p = Parser::new();
    let buf = "SUB subject 1\r\n".as_bytes();
    let r = p.parse(buf);
    assert!(r.is_ok());
    println!("r={:?}", r);
    let r = r.unwrap();
    assert_eq!(r.1, buf.len());
    if let ParseResult::Sub(sub) = r.0 {
        assert_eq!(sub.subject, "subject");
        assert_eq!(sub.sid, "1");
        assert_eq!(sub.queue, None);
    } else {
        assert!(false, "unkown error");
    }
}

#[test]
fn test_process_payload_size() {
    let buf = "FOO 11".as_bytes();
    let r = Parser::process_payload_size(buf);
    assert!(r.is_ok());
    let size = r.unwrap();
    assert_eq!(size, 11);
}

#[test]
fn test_process_payload() {
    let buf = "FOO 11Hello NATS!".as_bytes();
    let arg_len = "FOO 11".as_bytes().len();
    let r = Parser::process_payload(&buf[..arg_len], 11, &buf[arg_len..arg_len + 11]);
    assert!(r.is_ok());
    if let ParseResult::Pub(pub_arg) = r.unwrap() {
        assert_eq!(pub_arg.subject, "FOO");
        assert_eq!(pub_arg.size_buf, "11");
        assert_eq!(pub_arg.size, 11);
        assert_eq!(pub_arg.msg, "Hello NATS!".as_bytes());
    }
}

#[test]
fn test_pub() {
    let mut p = Parser::new();
    let buf = "PUB FOO 11\r\nHello NATS!\r\n".as_bytes();
    let r = p.parse(buf);
    assert!(r.is_ok());
    println!("r={:?}", r);
    let r = r.unwrap();
    assert_eq!(r.1, buf.len());
    if let ParseResult::Pub(pub_arg) = r.0 {
        assert_eq!(pub_arg.subject, "FOO");
        assert_eq!(pub_arg.size, 11);
        assert_eq!(pub_arg.msg, "Hello NATS!".as_bytes());
    } else {
        assert!(false, "unkown error")
    }
}

/// Feeds `frame` in chunks of `step` bytes and returns the event and the total
/// number of bytes consumed.
fn feed_in_chunks(frame: &[u8], step: usize) -> (ParseResult, usize) {
    let mut p = Parser::new();
    let mut at = 0;
    while at < frame.len() {
        let end = std::cmp::min(at + step, frame.len());
        let (res, n) = p.parse(&frame[at..end]).expect("frame decodes");
        at += n;
        if res != ParseResult::NoMsg {
            return (res, at);
        }
    }
    (ParseResult::NoMsg, at)
}

fn feed_split_at(frame: &[u8], k: usize) -> (ParseResult, usize) {
    let mut p = Parser::new();
    let (res, n) = p.parse(&frame[..k]).expect("first part decodes");
    if res != ParseResult::NoMsg {
        return (res, n);
    }
    assert_eq!(n, k);
    let (res, n) = p.parse(&frame[k..]).expect("second part decodes");
    (res, k + n)
}

#[test]
fn sub_with_queue_takes_sid_last() {
    let mut p = Parser::new();
    let buf = "SUB subject workers 42\r\n".as_bytes();
    let (res, n) = p.parse(buf).unwrap();
    assert_eq!(n, buf.len());
    match res {
        ParseResult::Sub(sub) => {
            assert_eq!(sub.subject, "subject");
            assert_eq!(sub.queue, Some("workers".to_string()));
            assert_eq!(sub.sid, "42");
        },
        _ => panic!("expected a subscription"),
    }
}

#[test]
fn sub_round_trip_byte_by_byte() {
    let frame = "SUB time.us.east q 17\r\n".as_bytes();
    let (whole, n) = feed_in_chunks(frame, frame.len());
    assert_eq!(n, frame.len());
    let (bytewise, m) = feed_in_chunks(frame, 1);
    assert_eq!(m, frame.len());
    assert_eq!(whole, bytewise);
    for k in 1..frame.len() {
        assert_eq!(feed_split_at(frame, k), (feed_in_chunks(frame, frame.len()).0, frame.len()));
    }
}

fn pub_frame(subject: &str, payload: &[u8]) -> Vec<u8> {
    let mut f = format!("PUB {} {}\r\n", subject, payload.len()).into_bytes();
    f.extend_from_slice(payload);
    f.extend_from_slice(b"\r\n");
    f
}

fn check_pub_round_trip(payload: &[u8]) {
    let frame = pub_frame("FOO", payload);
    for k in 1..frame.len() {
        let (res, n) = feed_split_at(&frame, k);
        assert_eq!(n, frame.len());
        match res {
            ParseResult::Pub(p) => {
                assert_eq!(p.subject, "FOO");
                assert_eq!(p.size, payload.len());
                assert_eq!(p.size_buf, payload.len().to_string());
                assert_eq!(p.msg, payload);
            },
            _ => panic!("expected a publish"),
        }
    }
    let (res, _) = feed_in_chunks(&frame, 1);
    match res {
        ParseResult::Pub(p) => assert_eq!(p.msg, payload),
        _ => panic!("expected a publish"),
    }
}

#[test]
fn pub_round_trip_in_scratch_buffer() {
    let payload: Vec<u8> = (0..100u32).map(|i| (i % 251) as u8).collect();
    check_pub_round_trip(&payload);
}

#[test]
fn pub_round_trip_in_overflow_buffer() {
    let payload: Vec<u8> = (0..(BUF_LEN as u32 * 3)).map(|i| (i * 7 % 256) as u8).collect();
    check_pub_round_trip(&payload);
}

#[test]
fn pub_payload_may_hold_line_breaks() {
    let payload = b"a\r\nb c\td";
    check_pub_round_trip(payload);
}

#[test]
fn size_zero_is_too_large() {
    let mut p = Parser::new();
    let e = p.parse("PUB FOO 0\r\n".as_bytes()).unwrap_err();
    assert_eq!(e.error_code, ERROR_MESSAGE_SIZE_TOO_LARGE);
}

#[test]
fn size_above_one_mebibyte_is_too_large() {
    let mut p = Parser::new();
    let e = p.parse("PUB FOO 1048577\r\n".as_bytes()).unwrap_err();
    assert_eq!(e.error_code, ERROR_MESSAGE_SIZE_TOO_LARGE);
    let mut p = Parser::new();
    let e = p.parse("PUB FOO 99999999999999999999999\r\n".as_bytes()).unwrap_err();
    assert_eq!(e.error_code, ERROR_MESSAGE_SIZE_TOO_LARGE);
    let mut p = Parser::new();
    let r = p.parse("PUB FOO 1048576\r\n".as_bytes()).unwrap();
    assert_eq!(r, (ParseResult::NoMsg, 17));
}

#[test]
fn non_numeric_size_is_parse_error() {
    let mut p = Parser::new();
    assert_eq!(p.parse("PUB FOO 1x\r\n".as_bytes()).unwrap_err().error_code, ERROR_PARSE);
    let mut p = Parser::new();
    assert_eq!(p.parse("PUB FOO\r\n".as_bytes()).unwrap_err().error_code, ERROR_PARSE);
    assert_eq!(Parser::process_payload_size("FOO".as_bytes()).unwrap_err().error_code, ERROR_PARSE);
}

#[test]
fn bad_verb_and_token_counts_are_parse_errors() {
    let mut p = Parser::new();
    assert_eq!(p.parse("XUB a 1\r\n".as_bytes()).unwrap_err().error_code, ERROR_PARSE);
    let mut p = Parser::new();
    assert_eq!(p.parse("SUB a\r\n".as_bytes()).unwrap_err().error_code, ERROR_PARSE);
    let mut p = Parser::new();
    assert_eq!(p.parse("SUB a b c d\r\n".as_bytes()).unwrap_err().error_code, ERROR_PARSE);
}

#[test]
fn payload_must_end_with_crlf() {
    let mut p = Parser::new();
    let e = p.parse("PUB FOO 2\r\nhiX\n".as_bytes()).unwrap_err();
    assert_eq!(e.error_code, ERROR_PARSE);
    let mut p = Parser::new();
    let (res, n) = p.parse("PUB FOO 2\r\nhi\r \n".as_bytes()).unwrap();
    assert_eq!(n, 16);
    assert!(matches!(res, ParseResult::Pub(_)));
}

#[test]
fn argument_line_too_long_is_parse_error() {
    let mut p = Parser::new();
    let mut frame = b"SUB ".to_vec();
    frame.extend(std::iter::repeat(b'a').take(BUF_LEN + 1));
    assert_eq!(p.parse(&frame).unwrap_err().error_code, ERROR_PARSE);
}

#[test]
fn lowercase_verbs_and_next_frame() {
    let mut p = Parser::new();
    let buf = "sub a 1\r\npub b 1\r\nx\r\n".as_bytes();
    let (first, n) = p.parse(buf).unwrap();
    assert_eq!(n, 9);
    assert!(matches!(first, ParseResult::Sub(_)));
    let (second, m) = p.parse(&buf[n..]).unwrap();
    assert_eq!(n + m, buf.len());
    match second {
        ParseResult::Pub(p) => assert_eq!(p.msg, b"x"),
        _ => panic!("expected a publish"),
    }
}

#[test]
fn reset_after_error() {
    let mut p = Parser::new();
    assert!(p.parse("PUB FOO 0\r\n".as_bytes()).is_err());
    p.reset();
    let (res, _) = p.parse("SUB a 1\r\n".as_bytes()).unwrap();
    assert!(matches!(res, ParseResult::Sub(_)));
}

#[test]
fn payload_size_reads_the_last_field() {
    assert_eq!(Parser::process_payload_size("FOO 0".as_bytes()).unwrap(), 0);
    assert_eq!(Parser::process_payload_size("FOO\t7".as_bytes()).unwrap(), 7);
    assert_eq!(Parser::process_payload_size("FOO 2000000".as_bytes()).unwrap(), 2000000);
    assert_eq!(Parser::process_payload_size("FOO 11 ".as_bytes()).unwrap_err().error_code, ERROR_PARSE);
    assert_eq!(Parser::process_payload_size("FOO x1".as_bytes()).unwrap_err().error_code, ERROR_PARSE);
    assert_eq!(
        Parser::process_payload_size("FOO 99999999999999999999999".as_bytes()).unwrap_err().error_code,
        ERROR_PARSE
    );
}

#[test]
fn fields_that_are_not_utf8_are_parse_errors() {
    assert_eq!(Parser::process_sub(&[0xff, b' ', b'1']).unwrap_err().error_code, ERROR_PARSE);
    assert_eq!(Parser::process_sub(&[b'a', b' ', 0xc3]).unwrap_err().error_code, ERROR_PARSE);
    let mut p = Parser::new();
    assert_eq!(p.parse(b"SUB a \xfe 1\r\n").unwrap_err().error_code, ERROR_PARSE);
    let mut p = Parser::new();
    assert_eq!(p.parse(b"PUB \xff 1\r\n").unwrap_err().error_code, ERROR_PARSE);
    let sub = Parser::process_sub("s\u{e9}jour 1".as_bytes()).unwrap();
    match sub {
        ParseResult::Sub(s) => assert_eq!(s.subject, "s\u{e9}jour"),
        _ => panic!("expected a subscription"),
    }
}
