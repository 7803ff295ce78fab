use bytes::BytesMut;
use toonstore::RespValue;

#[test]
fn test_simple_string() {
    let data = b"+OK\r\n";
    let mut buf = BytesMut::from(&data[..]);
    let val = RespValue::parse(&mut buf).unwrap().unwrap();
    assert_eq!(val, RespValue::SimpleString("OK".to_string()));
    assert_eq!(val.serialize(), data);
}

#[test]
fn test_error() {
    let data = b"-Error message\r\n";
    let mut buf = BytesMut::from(&data[..]);
    let val = RespValue::parse(&mut buf).unwrap().unwrap();
    assert_eq!(val, RespValue::Error("Error message".to_string()));
    assert_eq!(val.serialize(), data);
}

#[test]
fn test_integer() {
    let data = b":1000\r\n";
    let mut buf = BytesMut::from(&data[..]);
    let val = RespValue::parse(&mut buf).unwrap().unwrap();
    assert_eq!(val, RespValue::Integer(1000));
    assert_eq!(val.serialize(), data);
}

#[test]
fn test_bulk_string() {
    let data = b"$6\r\nfoobar\r\n";
    let mut buf = BytesMut::from(&data[..]);
    let val = RespValue::parse(&mut buf).unwrap().unwrap();
    assert_eq!(val, RespValue::BulkString(Some(b"foobar".to_vec())));
    assert_eq!(val.serialize(), data);
}

#[test]
fn test_null_bulk_string() {
    let data = b"$-1\r\n";
    let mut buf = BytesMut::from(&data[..]);
    let val = RespValue::parse(&mut buf).unwrap().unwrap();
    assert_eq!(val, RespValue::BulkString(None));
    assert_eq!(val.serialize(), data);
}

#[test]
fn test_array() {
    let data = b"*2\r\n$3\r\nfoo\r\n$3\r\nbar\r\n";
    let mut buf = BytesMut::from(&data[..]);
    let val = RespValue::parse(&mut buf).unwrap().unwrap();
    assert_eq!(
        val,
        RespValue::Array(Some(vec![
            RespValue::BulkString(Some(b"foo".to_vec())),
            RespValue::BulkString(Some(b"bar".to_vec())),
        ]))
    );
    assert_eq!(val.serialize(), data);
}

#[test]
fn test_command_array() {
    let data = b"*3\r\n$3\r\nSET\r\n$3\r\nkey\r\n$5\r\nvalue\r\n";
    let mut buf = BytesMut::from(&data[..]);
    let val = RespValue::parse(&mut buf).unwrap().unwrap();
    if let RespValue::Array(Some(arr)) = val {
        assert_eq!(arr.len(), 3);
        assert_eq!(arr[0], RespValue::BulkString(Some(b"SET".to_vec())));
        assert_eq!(arr[1], RespValue::BulkString(Some(b"key".to_vec())));
        assert_eq!(arr[2], RespValue::BulkString(Some(b"value".to_vec())));
    } else {
        panic!("Expected array");
    }
}

#[test]
fn test_incomplete_data() {
    let data = b"$6\r\nfoo";
    let mut buf = BytesMut::from(&data[..]);
    let val = RespValue::parse(&mut buf).unwrap();
    assert!(val.is_none());
}

#[test]
fn parse_consumes_one_message_and_leaves_the_rest() {
    let mut buf = BytesMut::from(&b"+A\r\n:-7\r\n*-1\r\n"[..]);
    assert_eq!(RespValue::parse(&mut buf).unwrap().unwrap(), RespValue::SimpleString("A".to_string()));
    assert_eq!(&buf[..], b":-7\r\n*-1\r\n");
    assert_eq!(RespValue::parse(&mut buf).unwrap().unwrap(), RespValue::Integer(-7));
    assert_eq!(RespValue::parse(&mut buf).unwrap().unwrap(), RespValue::Array(None));
    assert!(buf.is_empty());
    assert!(RespValue::parse(&mut buf).unwrap().is_none());
}

#[test]
fn round_trip_nested_message() {
    let m = RespValue::Array(Some(vec![
        RespValue::Integer(i64::MIN),
        RespValue::Integer(i64::MAX),
        RespValue::Error("ERR x".to_string()),
        RespValue::BulkString(Some(b"a\r\nb".to_vec())),
        RespValue::BulkString(Some(Vec::new())),
        RespValue::Array(Some(vec![RespValue::SimpleString("héllo".to_string())])),
        RespValue::Array(Some(Vec::new())),
        RespValue::BulkString(None),
    ]));
    let bytes = m.serialize();
    let mut buf = BytesMut::from(&bytes[..]);
    let back = RespValue::parse(&mut buf).unwrap().unwrap();
    assert_eq!(back, m);
    assert!(buf.is_empty());
}

#[test]
fn every_strict_prefix_is_incomplete() {
    let m = RespValue::Array(Some(vec![
        RespValue::BulkString(Some(b"SET".to_vec())),
        RespValue::Integer(-42),
        RespValue::SimpleString("ok".to_string()),
    ]));
    let bytes = m.serialize();
    for j in 0..bytes.len() {
        let mut buf = BytesMut::from(&bytes[..j]);
        assert!(RespValue::parse(&mut buf).unwrap().is_none(), "prefix {}", j);
        assert_eq!(buf.len(), j);
    }
}

#[test]
fn malformed_frames_are_errors() {
    for bad in [&b"?x\r\n"[..], b":12a\r\n", b"$3\r\nabcXY", b"$-2\r\n", b"*-5\r\n", b":99999999999999999999\r\n", b"$x\r\n"] {
        let mut buf = BytesMut::from(bad);
        assert!(RespValue::parse(&mut buf).is_err());
        assert_eq!(&buf[..], bad);
    }
}

#[test]
fn size_guards() {
    let mut buf = BytesMut::from(&b"$536870913\r\n"[..]);
    assert!(RespValue::parse(&mut buf).is_err());
    let mut buf = BytesMut::from(&b"*1048577\r\n"[..]);
    assert!(RespValue::parse(&mut buf).is_err());
    let mut buf = BytesMut::from(&b"$536870912\r\nab"[..]);
    assert!(RespValue::parse(&mut buf).unwrap().is_none());
}

#[test]
fn parse_bytes_reports_length() {
    let (v, n) = RespValue::parse_bytes(b":+5\r\nrest").unwrap().unwrap();
    assert_eq!(v, RespValue::Integer(5));
    assert_eq!(n, 5);
}

#[test]
fn guard_error_texts() {
    let mut buf = BytesMut::from(&b"$536870913\r\n"[..]);
    assert_eq!(RespValue::parse(&mut buf).unwrap_err(), "ERR bulk string too large");
    let mut buf = BytesMut::from(&b"$-5\r\n"[..]);
    assert_eq!(RespValue::parse(&mut buf).unwrap_err(), "ERR bulk string too large");
    let mut buf = BytesMut::from(&b"*1048577\r\n"[..]);
    assert_eq!(RespValue::parse(&mut buf).unwrap_err(), "ERR array too large");
}
