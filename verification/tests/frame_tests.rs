use mini_redis::add;
use mini_redis::codec::{RedisCodec, RedisFrame};
use mini_redis::frame::{check, get_decimal, get_line, get_u8, peek_u8, Frame, FrameError, FrameIter};

#[test]
fn it_works() {
    let result = add(2, 2);
    assert_eq!(result, 4);
}

#[test]
fn get_line_test() {
    let str = "abcd\r\n".as_bytes();
    let mut pos: usize = 0;
    let result = get_line(str, &mut pos).unwrap();
    assert_eq!(result, "abcd");
}

#[test]
fn get_decimal_test() {
    let str = "-100\r\n".as_bytes();
    let mut pos: usize = 0;
    let result = get_decimal(str, &mut pos).unwrap();
    assert_eq!(result, -100);
}

#[test]
fn get_u8_test() {
    let str = "-100\r\n".as_bytes();
    let mut pos: usize = 0;
    assert_eq!(get_u8(str, &mut pos), Ok(b'-'));
    assert_eq!(get_u8(str, &mut pos), Ok(b'1'));
    assert_eq!(get_u8(str, &mut pos), Ok(b'0'));
    assert_eq!(get_u8(str, &mut pos), Ok(b'0'));
}

#[test]
fn peek_u8_test() {
    let str = "-100\r\n".as_bytes();
    let pos: usize = 0;
    assert_eq!(peek_u8(str, pos), Ok(b'-'));
    assert_eq!(peek_u8(str, pos), Ok(b'-'));
    assert_eq!(peek_u8(str, pos), Ok(b'-'));
    assert_eq!(peek_u8(str, pos), Ok(b'-'));
}

#[test]
fn check_test() {
    let protocol5 = "*3\r\n+abcd\r\n-error\r\n:100\r\n".as_bytes();
    let mut pos: usize = 0;
    assert_eq!(check(protocol5, &mut pos), Ok(()));
    assert_eq!(pos, 25);
}

#[test]
fn parse_protocol_test() {
    let bytes1 = "+abcd\r\n".as_bytes();
    let frame1 = Frame::parse_protocol(bytes1).unwrap();
    assert_eq!(frame1, Frame::Simple("abcd".to_string()));

    let bytes2 = "-error\r\n".as_bytes();
    let frame2 = Frame::parse_protocol(bytes2).unwrap();
    assert_eq!(frame2, Frame::Error("error".to_string()));

    let bytes3 = ":1000\r\n".as_bytes();
    let frame3 = Frame::parse_protocol(bytes3).unwrap();
    assert_eq!(frame3, Frame::Integer(1000));

    let bytes4 = "$3\r\nabc\r\n".as_bytes();
    let frame4 = Frame::parse_protocol(bytes4).unwrap();
    assert_eq!(frame4, Frame::Bulk(b"abc".to_vec()));

    let bytes5 = b"*3\r\n+abcd\r\n-error\r\n:100\r\n";
    let frame5 = Frame::parse_protocol(bytes5).unwrap();
    assert_eq!(
        frame5,
        Frame::Array(vec![
            Frame::Simple("abcd".to_string()),
            Frame::Error("error".to_string()),
            Frame::Integer(100),
        ])
    );
}

#[test]
fn to_protocol_test() {
    let frame = Frame::Simple("simple".to_string());
    let vec = frame.to_protocol().unwrap();
    let result = String::from_utf8(vec.to_vec()).unwrap();
    assert_eq!(result, "+simple\r\n".to_string());

    let frame = Frame::Integer(100);
    let vec = frame.to_protocol().unwrap();
    let result = String::from_utf8(vec.to_vec()).unwrap();
    assert_eq!(result, ":100\r\n".to_string());

    let frame = Frame::Bulk(b"test".to_vec());
    let vec = frame.to_protocol().unwrap();
    let result = String::from_utf8(vec.to_vec()).unwrap();
    assert_eq!(result, "$4\r\ntest\r\n".to_string());
}

#[test]
fn encode_test() {
    let framea = RedisFrame::Integer(1234);
    let frameb = RedisFrame::Simple("abcd".to_string());
    let frame = RedisFrame::Array(vec![framea, frameb]);

    let mut stream: Vec<u8> = Vec::new();
    let mut codec = RedisCodec;
    codec.encode(frame, &mut stream).unwrap();
    assert_eq!(stream, b"*2\r\n:1234\r\n+abcd\r\n".to_vec());

    let frame2 = codec.decode(&mut stream).unwrap().unwrap();
    assert_eq!(
        frame2,
        RedisFrame::Array(vec![
            RedisFrame::Integer(1234),
            RedisFrame::Simple("abcd".to_string()),
        ])
    );
    assert!(stream.is_empty());
}

#[test]
fn frame_iter_test() {
    let vec = vec![
        Frame::Simple("String".to_string()),
        Frame::Simple("2".to_string()),
    ];
    let mut frame_iter = FrameIter::new(vec);
    assert!(frame_iter.has_remaining());
    assert_eq!(frame_iter.next_string(), Ok("String".to_string()));
    assert_eq!(frame_iter.next_int(), Ok(2));
    assert!(!frame_iter.has_remaining());
}

#[test]
fn round_trip_nested_frame() {
    let frame = Frame::Array(vec![
        Frame::Simple("state".to_string()),
        Frame::Error("oops".to_string()),
        Frame::Integer(-42),
        Frame::Bulk(vec![0, 159, 146, 150]),
        Frame::Array(vec![Frame::Integer(0), Frame::Bulk(Vec::new())]),
    ]);
    let bytes = frame.to_protocol().unwrap();
    let back = Frame::parse_protocol(&bytes).unwrap();
    assert_eq!(back, frame);
}

#[test]
fn every_strict_prefix_is_incomplete() {
    let frame = Frame::Array(vec![
        Frame::Bulk(b"GET".to_vec()),
        Frame::Simple("foo".to_string()),
        Frame::Integer(-1),
    ]);
    let bytes = frame.to_protocol().unwrap();
    for n in 0..bytes.len() {
        let prefix = &bytes[..n];
        assert_eq!(
            Frame::parse_protocol(prefix),
            Err(FrameError::Incomplete),
            "prefix of length {} must be incomplete",
            n
        );
    }
}

#[test]
fn incomplete_then_complete_request() {
    let partial = b"*2\r\n$3\r\nGET\r\n$3\r\nfoo";
    assert_eq!(Frame::parse_protocol(partial), Err(FrameError::Incomplete));

    let mut full = partial.to_vec();
    full.extend_from_slice(b"\r\n");
    let frame = Frame::parse_protocol(&full).unwrap();
    assert_eq!(
        frame,
        Frame::Array(vec![Frame::Bulk(b"GET".to_vec()), Frame::Bulk(b"foo".to_vec())])
    );
}

#[test]
fn bad_type_byte_is_protocol_error() {
    let res = Frame::parse_protocol(b"x\r\n");
    assert!(matches!(res, Err(FrameError::Protocol(_))));
}

#[test]
fn bulk_without_terminator_is_protocol_error() {
    let res = Frame::parse_protocol(b"$3\r\nabcXY");
    assert!(matches!(res, Err(FrameError::Protocol(_))));
}

#[test]
fn bad_integer_line_is_protocol_error() {
    let res = Frame::parse_protocol(b":abc\r\n");
    assert!(matches!(res, Err(FrameError::Protocol(_))));
}

#[test]
fn invalid_utf8_simple_is_protocol_error() {
    let res = Frame::parse_protocol(b"+ab\xff\r\n");
    assert!(matches!(res, Err(FrameError::Protocol(_))));
}

#[test]
fn integer_line_ignores_trailing_bytes() {
    let frame = Frame::parse_protocol(b":12abc\r\n").unwrap();
    assert_eq!(frame, Frame::Integer(12));
}

#[test]
fn line_codec_round_trip() {
    let mut codec = mini_redis::codec::LineCodec;
    let mut buf: Vec<u8> = Vec::new();
    codec.encode("hello".to_string(), &mut buf).unwrap();
    assert_eq!(buf, b"hello\n".to_vec());
    let line = codec.decode(&mut buf).unwrap();
    assert_eq!(line, Some("hello".to_string()));
    assert!(buf.is_empty());
    assert_eq!(codec.decode(&mut buf).unwrap(), None);
}
