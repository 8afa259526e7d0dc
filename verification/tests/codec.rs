//! Round trips and error cases of the wire codec.
use miniredis::resp::decode_rdb_file;
use miniredis::resp::Data;
use miniredis::resp::DecodeError;

fn roundtrip(data: Data) {
    let encoded = data.encode();
    assert_eq!(data.num_bytes(), encoded.len());
    let (decoded, num_bytes) = Data::decode(&encoded).unwrap();
    assert_eq!(num_bytes, encoded.len());
    assert_eq!(data, decoded);
}

#[test]
fn simple_string() {
    roundtrip(Data::SimpleString("".into()));
    roundtrip(Data::SimpleString("abc".into()));
    roundtrip(Data::SimpleString("abc d".into()));
}

#[test]
fn bulk_string() {
    roundtrip(Data::BulkString("".into()));
    roundtrip(Data::BulkString("abc".into()));
    roundtrip(Data::NullBulkString);
}

#[test]
fn array() {
    roundtrip(Data::Array(Vec::new()));
    roundtrip(Data::Array(vec![Data::SimpleString("a".into())]));
    roundtrip(Data::Array(vec![
        Data::SimpleString("a".into()),
        Data::SimpleString("ab".into()),
    ]));
    roundtrip(Data::Array(vec![
        Data::SimpleString("a".into()),
        Data::SimpleString("ab".into()),
        Data::BulkString("abc".into()),
    ]));
    roundtrip(Data::Array(vec![
        Data::SimpleString("a".into()),
        Data::SimpleString("ab".into()),
        Data::BulkString("abc".into()),
        Data::Array(vec![Data::SimpleString("abcd".into())]),
    ]));
}

#[test]
fn simple_error() {
    roundtrip(Data::SimpleError("error".into()));
}

#[test]
fn integer() {
    roundtrip(Data::Integer(0));
    roundtrip(Data::Integer(1));
    roundtrip(Data::Integer(-1));
    roundtrip(Data::Integer(42));
    roundtrip(Data::Integer(-42));
}

#[test]
fn rdb_file() {
    assert!(decode_rdb_file("$2\r\nx".as_bytes()).is_err());
    assert!(decode_rdb_file("$2\r\nxy".as_bytes()).is_ok());
}

#[test]
fn decode_simple_string_error() {
    assert!(Data::decode("+\r".as_bytes()).is_err());
    assert!(Data::decode("+\n".as_bytes()).is_err());
}

#[test]
fn decode_bulk_string_error() {
    assert!(Data::decode("$".as_bytes()).is_err());
    assert!(Data::decode("$2".as_bytes()).is_err());
    assert!(Data::decode("$2\r".as_bytes()).is_err());
    assert!(Data::decode("$2\r\n".as_bytes()).is_err());
    assert!(Data::decode("$2\r\n\r".as_bytes()).is_err());
    assert!(Data::decode("$2\r\n\r\n".as_bytes()).is_err());
    assert!(Data::decode("$2\r\na\r\n".as_bytes()).is_err());
}

#[test]
fn decode_array_error() {
    assert!(Data::decode("*0".as_bytes()).is_err());
    assert!(Data::decode("*0\r".as_bytes()).is_err());
    assert!(Data::decode("*1\r\n".as_bytes()).is_err());
    assert!(Data::decode("*1\r\n$".as_bytes()).is_err());
    assert!(Data::decode("*1\r\n+".as_bytes()).is_err());
    assert!(Data::decode("*1\r\n+OK".as_bytes()).is_err());
    assert!(Data::decode("*1\r\n+OK\r".as_bytes()).is_err());
    assert!(Data::decode("*2\r\n+OK\r\n".as_bytes()).is_err());
}

#[test]
fn every_strict_prefix_asks_for_more() {
    let value = Data::Array(vec![
        Data::SimpleString("a".into()),
        Data::BulkString("bc".into()),
        Data::Integer(-7),
        Data::NullBulkString,
    ]);
    let encoded = value.encode();
    for k in 0..encoded.len() {
        match Data::decode(&encoded[..k]) {
            Err(DecodeError::NeedMoreBytes) => {}
            other => panic!("prefix of length {} gave {:?}", k, other),
        }
    }
}

#[test]
fn decode_accepts_padded_lengths() {
    let (decoded, n) = Data::decode("$02\r\nhi\r\n".as_bytes()).unwrap();
    assert_eq!(decoded, Data::BulkString("hi".into()));
    assert_eq!(n, 9);
    let (decoded, n) = Data::decode(":042\r\n".as_bytes()).unwrap();
    assert_eq!(decoded, Data::Integer(42));
    assert_eq!(n, 6);
}

#[test]
fn error_kinds_are_told_apart() {
    assert!(matches!(
        Data::decode(b"*a\r\n"),
        Err(DecodeError::CannotDecodeNumber)
    ));
    assert!(matches!(
        Data::decode(b"$99999999999999999999999\r\n"),
        Err(DecodeError::CannotDecodeNumber)
    ));
    assert!(matches!(
        Data::decode(b"+a\rx\n"),
        Err(DecodeError::Protocol)
    ));
    assert!(matches!(
        Data::decode(b"!x\r\n"),
        Err(DecodeError::Protocol)
    ));
    assert!(matches!(
        Data::decode(b"+ab"),
        Err(DecodeError::NeedMoreBytes)
    ));
}

#[test]
fn get_string_reads_text() {
    assert_eq!(
        Data::BulkString("abc".into()).get_string(),
        Some("abc".to_string())
    );
    assert_eq!(Data::SimpleString(vec![0xff, 0xfe]).get_string(), None);
    assert_eq!(Data::Integer(3).get_string(), None);
}

#[test]
fn rdb_frame_has_no_trailing_break() {
    let frame = miniredis::resp::encode_rdb_file(vec![1, 2, 3]);
    assert_eq!(frame, b"$3\r\n\x01\x02\x03".to_vec());
    let (payload, n) = decode_rdb_file(&frame).unwrap();
    assert_eq!(payload, vec![1, 2, 3]);
    assert_eq!(n, frame.len());
}
