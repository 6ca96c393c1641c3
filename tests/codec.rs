use bytes::BytesMut;
use redust::connection::{command, is_pong};
use redust::{to_bytes, Codec, Data, Error, Manager, ParseError, Status};

#[test]
fn test_decoder() {
    let mut codec = Codec;
    let mut buf = BytesMut::from(&b"+OK\r\n-ERR\r\n"[..]);

    let first = codec.decode(&mut buf).unwrap();
    assert!(matches!(first, Some(Ok(Data::SimpleString(ref v))) if v == "OK"));

    let second = codec.decode(&mut buf).unwrap();
    assert!(matches!(second, Some(Err(Error::Redis(ref v))) if v == "ERR"));

    let third = codec.decode(&mut buf).unwrap();
    assert!(third.is_none());
}

#[test]
fn test_chunked_decoder() {
    let mut codec = Codec;
    let mut buf = BytesMut::new();
    let mut frames = Vec::new();
    let chunks: [&[u8]; 5] = [b"+OK\r\n", b"+OK", b"\r\n", b"+OK\r\n+O", b"K\r\n"];
    for chunk in chunks {
        buf.extend_from_slice(chunk);
        while let Some(item) = codec.decode(&mut buf).unwrap() {
            frames.push(item.unwrap());
        }
    }

    assert_eq!(frames.len(), 4);
    for data in frames {
        assert!(matches!(data, Data::SimpleString(ref v) if v == "OK"));
    }
    assert!(codec.decode(&mut buf).unwrap().is_none());
}

#[test]
fn server_error_is_transient() {
    let mut codec = Codec;
    let mut status = Status::new();
    let mut buf = BytesMut::from(&b"-ERR bad\r\n"[..]);

    let item = codec.decode(&mut buf).unwrap().unwrap();
    let err = item.unwrap_err();
    assert!(matches!(err, Error::Redis(ref m) if m == "ERR bad"));
    assert!(err.is_transient());
    let _ = status.observe::<Data>(Err(err));
    assert!(!status.is_dead());

    assert!(codec.decode(&mut buf).unwrap().is_none());
    assert!(buf.is_empty());
}

#[test]
fn framing_error_is_fatal() {
    let mut codec = Codec;
    let mut status = Status::new();
    let mut buf = BytesMut::from(&b"+OK\rX\n"[..]);

    let err = codec.decode(&mut buf).unwrap_err();
    assert!(matches!(err, Error::Parse(ParseError::Invalid(0))));
    assert!(!err.is_transient());
    let _ = status.observe::<Data>(Err(err));
    assert!(status.is_dead());

    let _ = status.observe::<Data>(Ok(Data::Null));
    assert!(status.is_dead());
    let _ = status.observe::<Data>(Err(Error::Redis("x".to_string())));
    assert!(status.is_dead());
}

#[test]
fn io_error_marks_dead() {
    let mut status = Status::new();
    let _ = status.observe::<()>(Err(Error::Io("reset".to_string())));
    assert!(status.is_dead());
}

#[test]
fn null_bulk_and_empty_bulk() {
    let mut codec = Codec;
    let mut buf = BytesMut::from(&b"$-1\r\n$0\r\n\r\n*-1\r\n"[..]);
    assert_eq!(codec.decode(&mut buf).unwrap().unwrap().unwrap(), Data::Null);
    assert_eq!(codec.decode(&mut buf).unwrap().unwrap().unwrap(), Data::BulkString(Vec::new()));
    assert_eq!(codec.decode(&mut buf).unwrap().unwrap().unwrap(), Data::Null);
}

#[test]
fn incomplete_bulk_reserves_and_keeps_bytes() {
    let mut codec = Codec;
    let mut buf = BytesMut::from(&b"$10\r\nabc"[..]);
    assert!(codec.decode(&mut buf).unwrap().is_none());
    assert_eq!(&buf[..], b"$10\r\nabc");
    assert!(buf.capacity() >= buf.len() + 9);
    buf.extend_from_slice(b"defghij\r\n");
    let d = codec.decode(&mut buf).unwrap().unwrap().unwrap();
    assert_eq!(d, Data::bulk_string(b"abcdefghij"));
    assert!(buf.is_empty());
}

#[test]
fn pipelined_replies_in_order() {
    let mut codec = Codec;
    let mut buf = BytesMut::new();
    codec.encode(Data::bulk_string(b"foo"), &mut buf).unwrap();
    codec.encode(Data::bulk_string(b"bar"), &mut buf).unwrap();
    assert_eq!(&buf[..], b"$3\r\nfoo\r\n$3\r\nbar\r\n");
    let first = codec.decode(&mut buf).unwrap().unwrap().unwrap();
    let second = codec.decode(&mut buf).unwrap().unwrap().unwrap();
    assert_eq!(first, Data::bulk_string(b"foo"));
    assert_eq!(second, Data::bulk_string(b"bar"));
}

#[test]
fn encode_command() {
    let mut codec = Codec;
    let mut buf = BytesMut::new();
    let args: [&[u8]; 2] = [b"ping", b"foo"];
    codec.encode(command(&args), &mut buf).unwrap();
    assert_eq!(&buf[..], b"*2\r\n$4\r\nping\r\n$3\r\nfoo\r\n");
}

#[test]
fn ser_str() {
    let data = Data::simple_string("OK");
    let mut writer = Vec::new();
    to_bytes(&data, &mut writer);

    assert_eq!(writer, b"+OK\r\n");
}

#[test]
fn ser_values() {
    let mut out = Vec::new();
    to_bytes(&Data::Integer(-42), &mut out);
    to_bytes(&Data::Null, &mut out);
    to_bytes(&Data::Array(vec![]), &mut out);
    to_bytes(&Data::Integer(i64::MIN), &mut out);
    assert_eq!(out, b":-42\r\n$-1\r\n*0\r\n:-9223372036854775808\r\n");
}

#[test]
fn null_type_array() {
    let mut ser = redust::Serializer::new(redust::Options { null_type: redust::NullType::Array });
    ser.serialize_data(&Data::Null);
    assert_eq!(ser.output, b"*-1\r\n");
    assert_eq!(redust::Options::default().null_type, redust::NullType::BulkString);
}

#[test]
fn pong_check_and_manager() {
    assert!(is_pong(&Data::simple_string("PONG")));
    assert!(!is_pong(&Data::bulk_string(b"PONG")));
    assert!(!is_pong(&Data::simple_string("PON")));
    let m = Manager::new("localhost:6379");
    assert_eq!(*m.addr(), "localhost:6379");
    let mut s = Status::new();
    assert!(!m.has_broken(&s));
    let _ = s.observe::<()>(Err(Error::Message("x".to_string())));
    assert!(m.has_broken(&s));
}
