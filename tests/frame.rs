use htcache::codec::{decode, find_line_end, parse_digits, parse_integer};
use htcache::error::FrameError;
use htcache::frame::Frame;

fn bulk(s: &[u8]) -> Frame {
    Frame::Bulk(s.to_vec())
}

fn decoded(bytes: &[u8]) -> Frame {
    let (frame, end) = decode(bytes, 0).unwrap();
    assert_eq!(end, bytes.len());
    frame
}

#[test]
fn encode_each_variant() {
    assert_eq!(Frame::Simple(b"OK".to_vec()).encode(), b"+OK\r\n".to_vec());
    assert_eq!(Frame::Error(b"Error".to_vec()).encode(), b"-Error\r\n".to_vec());
    assert_eq!(Frame::Integer(128).encode(), b":128\r\n".to_vec());
    assert_eq!(Frame::Integer(-25).encode(), b":-25\r\n".to_vec());
    assert_eq!(Frame::Integer(0).encode(), b":0\r\n".to_vec());
    assert_eq!(Frame::Integer(i64::MIN).encode(), b":-9223372036854775808\r\n".to_vec());
    assert_eq!(bulk(b"hello").encode(), b"$5\r\nhello\r\n".to_vec());
    assert_eq!(bulk(b"").encode(), b"$0\r\n\r\n".to_vec());
    assert_eq!(Frame::Boolean(true).encode(), b"#t\r\n".to_vec());
    assert_eq!(Frame::Boolean(false).encode(), b"#f\r\n".to_vec());
    assert_eq!(Frame::Null.encode(), b"_\r\n".to_vec());
    assert_eq!(Frame::array().encode(), b"*0\r\n".to_vec());
    assert_eq!(Frame::map().encode(), b"%0\r\n".to_vec());
}

#[test]
fn encode_nested() {
    let mut array = Frame::array();
    array.push_back(bulk(b"hello")).unwrap();
    array.push_back(bulk(b"world")).unwrap();
    assert_eq!(array.encode(), b"*2\r\n$5\r\nhello\r\n$5\r\nworld\r\n".to_vec());

    let mut mixed = Frame::array();
    for i in 1..5 {
        mixed.push_back(Frame::Integer(i)).unwrap();
    }
    mixed.push_back(bulk(b"hello")).unwrap();
    assert_eq!(mixed.encode(), b"*5\r\n:1\r\n:2\r\n:3\r\n:4\r\n$5\r\nhello\r\n".to_vec());

    let mut map = Frame::map();
    map.add_map_frame(bulk(b"save"), bulk(b"no")).unwrap();
    assert_eq!(map.encode(), b"%1\r\n$4\r\nsave\r\n$2\r\nno\r\n".to_vec());
}

#[test]
fn builders_refuse_the_wrong_variant() {
    let mut not_array = Frame::Null;
    assert!(matches!(not_array.push_back(Frame::Null), Err(FrameError::InvalidType)));
    let mut not_map = Frame::array();
    assert!(matches!(not_map.add_map_frame(Frame::Null, Frame::Null), Err(FrameError::InvalidType)));
    assert_eq!(not_map.encode(), b"*0\r\n".to_vec());
}

#[test]
fn decode_simple_and_error() {
    let buf = b"+Hello\r\n+Hello World\r\n+\r\n-Err\r\n";
    let (f, p) = decode(buf, 0).unwrap();
    assert_eq!(f.encode(), b"+Hello\r\n".to_vec());
    let (f, p) = decode(buf, p).unwrap();
    assert_eq!(f.encode(), b"+Hello World\r\n".to_vec());
    let (f, p) = decode(buf, p).unwrap();
    assert!(matches!(f, Frame::Simple(ref s) if s.is_empty()));
    let (f, p) = decode(buf, p).unwrap();
    assert!(matches!(f, Frame::Error(ref s) if s == b"Err"));
    assert_eq!(p, buf.len());
    assert!(matches!(decode(buf, p), Err(FrameError::Incomplete)));
}

#[test]
fn simple_lines_reject_bare_cr_and_lf() {
    assert!(matches!(decode(b"+Word\n", 0), Err(FrameError::InvalidFrame)));
    assert!(matches!(decode(b"+Hello\rWorld\r\n", 0), Err(FrameError::InvalidFrame)));
    assert!(matches!(decode(b"+a\nb\r\n", 0), Err(FrameError::InvalidFrame)));
    assert!(matches!(decode(b"-a\rb\r\n", 0), Err(FrameError::InvalidFrame)));
}

#[test]
fn decode_integers() {
    assert!(matches!(decoded(b":25\r\n"), Frame::Integer(25)));
    assert!(matches!(decoded(b":-25\r\n"), Frame::Integer(-25)));
    assert!(matches!(decoded(b":0\r\n"), Frame::Integer(0)));
    assert!(matches!(decoded(b":+7\r\n"), Frame::Integer(7)));
    assert!(matches!(decoded(b":007\r\n"), Frame::Integer(7)));
    assert!(matches!(decoded(b":-9223372036854775808\r\n"), Frame::Integer(i64::MIN)));
    assert!(matches!(decoded(b":9223372036854775807\r\n"), Frame::Integer(i64::MAX)));
    assert!(matches!(decode(b":9223372036854775808\r\n", 0), Err(FrameError::IntFromUTF8)));
    assert!(matches!(decode(b":notnumber\r\n", 0), Err(FrameError::IntFromUTF8)));
    assert!(matches!(decode(b":\r\n", 0), Err(FrameError::IntFromUTF8)));
    assert!(matches!(decode(b":33", 0), Err(FrameError::Incomplete)));
}

#[test]
fn decode_bulk_is_length_prefixed() {
    assert!(matches!(decoded(b"$5\r\nHello\r\n"), Frame::Bulk(ref b) if b == b"Hello"));
    assert!(matches!(decoded(b"$0\r\n\r\n"), Frame::Bulk(ref b) if b.is_empty()));
    assert!(matches!(decoded(b"$11\r\nHello\rWorld\r\n"), Frame::Bulk(ref b) if b == b"Hello\rWorld"));
    assert!(matches!(decoded(b"$05\r\nHello\r\n"), Frame::Bulk(ref b) if b == b"Hello"));
    assert!(matches!(decode(b"$5\r\nWrong Size\r\n", 0), Err(FrameError::InvalidFrame)));
    assert!(matches!(decode(b"$5\r\nHel", 0), Err(FrameError::Incomplete)));
    assert!(matches!(decode(b"$x\r\nHello\r\n", 0), Err(FrameError::InvalidFrame)));
    assert!(matches!(decode(b"$-1\r\n", 0), Err(FrameError::InvalidFrame)));
}

#[test]
fn bulk_round_trip_keeps_any_bytes() {
    let payloads: Vec<Vec<u8>> = vec![
        b"".to_vec(),
        b"\r\n".to_vec(),
        b"a\rb\nc".to_vec(),
        vec![0xff, 0xfe, 0x00, 0x80, 13, 10, 13],
        (0..=255u8).collect(),
    ];
    for p in payloads {
        let bytes = Frame::Bulk(p.clone()).encode();
        assert!(matches!(decoded(&bytes), Frame::Bulk(ref b) if *b == p));
    }
}

#[test]
fn decode_bool_and_null() {
    assert!(matches!(decoded(b"#t\r\n"), Frame::Boolean(true)));
    assert!(matches!(decoded(b"#f\r\n"), Frame::Boolean(false)));
    assert!(matches!(decoded(b"_\r\n"), Frame::Null));
    assert!(matches!(decode(b"#5\r\n", 0), Err(FrameError::InvalidFrame)));
    assert!(matches!(decode(b"#tt\r\n", 0), Err(FrameError::InvalidFrame)));
    assert!(matches!(decode(b"_x\r\n", 0), Err(FrameError::InvalidFrame)));
}

#[test]
fn decode_arrays_and_maps() {
    let buf = b"*2\r\n$5\r\nhello\r\n:28\r\n+simple\r\n";
    let (f, p) = decode(buf, 0).unwrap();
    assert_eq!(p, 20);
    assert_eq!(f.encode(), b"*2\r\n$5\r\nhello\r\n:28\r\n".to_vec());
    assert!(matches!(decode(b"*2\r\n$5\r\nhello1\r\n:28\r\n", 0), Err(FrameError::InvalidFrame)));

    let map = b"%2\r\n+a\r\n:1\r\n+b\r\n*1\r\n#t\r\n";
    let f = decoded(map);
    assert_eq!(f.encode(), map.to_vec());
    assert!(matches!(decode(b"*1\r\n?x\r\n", 0), Err(FrameError::InvalidType)));
}

#[test]
fn unknown_tag_is_invalid_type() {
    assert!(matches!(decode(b"!oops\r\n", 0), Err(FrameError::InvalidType)));
}

#[test]
fn every_proper_prefix_is_incomplete() {
    let mut inner = Frame::array();
    inner.push_back(Frame::Integer(-3)).unwrap();
    inner.push_back(Frame::Null).unwrap();
    let mut map = Frame::map();
    map.add_map_frame(bulk(b"k"), Frame::Boolean(true)).unwrap();
    let mut outer = Frame::array();
    outer.push_back(bulk(b"a\r\nb")).unwrap();
    outer.push_back(Frame::Simple(b"ok".to_vec())).unwrap();
    outer.push_back(inner).unwrap();
    outer.push_back(map).unwrap();
    let bytes = outer.encode();
    for n in 0..bytes.len() {
        assert!(matches!(decode(&bytes[..n], 0), Err(FrameError::Incomplete)), "prefix {}", n);
    }
    let f = decoded(&bytes);
    assert_eq!(f.encode(), bytes);
}

#[test]
fn line_and_number_helpers() {
    assert!(matches!(find_line_end(b"ab\r\n", 0), Ok(2)));
    assert!(matches!(find_line_end(b"ab\r", 0), Err(FrameError::Incomplete)));
    assert!(matches!(find_line_end(b"ab", 0), Err(FrameError::Incomplete)));
    assert!(matches!(find_line_end(b"a\rb\r\n", 0), Err(FrameError::InvalidFrame)));
    assert_eq!(parse_digits(b"12345", 0, 5), Some(12345));
    assert_eq!(parse_digits(b"18446744073709551615", 0, 20), Some(u64::MAX));
    assert_eq!(parse_digits(b"18446744073709551616", 0, 20), None);
    assert_eq!(parse_digits(b"", 0, 0), None);
    assert_eq!(parse_digits(b"1a", 0, 2), None);
    assert!(matches!(parse_integer(b"-12", 0, 3), Ok(-12)));
    assert!(matches!(parse_integer(b"-", 0, 1), Err(FrameError::IntFromUTF8)));
}

#[test]
fn frame_error_messages() {
    assert_eq!(FrameError::InvalidFrame.message(), b"RESP frame is malformed".to_vec());
    assert_eq!(FrameError::Incomplete.message(), b"frame is incomplete".to_vec());
    assert_eq!(FrameError::EOF.message(), b"file reached EOF".to_vec());
    assert_eq!(FrameError::ConnectionReset.message(), b"connection reset by peer".to_vec());
}

#[test]
fn map_keys_are_unique_and_ordered() {
    let mut m = Frame::map();
    m.add_map_frame(bulk(b"b"), Frame::Integer(1)).unwrap();
    m.add_map_frame(bulk(b"a"), Frame::Integer(2)).unwrap();
    m.add_map_frame(bulk(b"b"), Frame::Integer(3)).unwrap();
    assert_eq!(m.encode(), b"%2\r\n$1\r\na\r\n:2\r\n$1\r\nb\r\n:3\r\n".to_vec());

    let mut other = Frame::map();
    other.add_map_frame(bulk(b"a"), Frame::Integer(2)).unwrap();
    other.add_map_frame(bulk(b"b"), Frame::Integer(3)).unwrap();
    assert_eq!(other.encode(), m.encode());
}

#[test]
fn decoded_maps_keep_the_last_value_of_a_key() {
    let f = decode(b"%2\r\n+a\r\n:1\r\n+a\r\n:2\r\n", 0).unwrap().0;
    assert_eq!(f.encode(), b"%1\r\n+a\r\n:2\r\n".to_vec());
    let f = decode(b"%2\r\n+b\r\n:1\r\n+a\r\n:2\r\n", 0).unwrap().0;
    assert_eq!(f.encode(), b"%2\r\n+a\r\n:2\r\n+b\r\n:1\r\n".to_vec());
}

#[test]
fn malformed_lines_get_their_errors() {
    assert!(matches!(decode(b"?", 0), Err(FrameError::InvalidType)));
    assert!(matches!(decode(b":12a\r\n", 0), Err(FrameError::IntFromUTF8)));
    assert!(matches!(decode(b"#x\r\n", 0), Err(FrameError::InvalidFrame)));
    assert!(matches!(decode(b"_ \r\n", 0), Err(FrameError::InvalidFrame)));
    assert!(matches!(decode(b"$2\r\nabcd", 0), Err(FrameError::InvalidFrame)));
    assert!(matches!(decode(b"$2\r\nab\r", 0), Err(FrameError::Incomplete)));
}
