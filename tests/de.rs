use redust::de::Deserializer;
use redust::{from_bytes, Bytes, Data, Error, Pairs, ParseError};

#[test]
fn de_int() {
    let data = b":1\r\n";
    let (res, rem) = from_bytes::<u8>(data).unwrap();

    assert_eq!(res, 1);
    assert_eq!(rem, []);
}

#[test]
fn de_str() {
    let data = b"+foo\r\n";
    let (res, rem) = from_bytes::<String>(data).unwrap();

    assert_eq!(res, "foo");
    assert_eq!(rem, []);
}

#[test]
fn de_error() {
    let data = b"-foo\r\n";
    let err = from_bytes::<Data>(data).unwrap_err();

    match err.data {
        Error::Redis(_) => {}
        other => panic!("unexpected error type {:?}", other),
    }
}

#[test]
fn de_bytes() {
    let data = b"$3\r\nfoo\r\n";
    let (res, rem) = from_bytes::<Bytes>(data).unwrap();

    assert_eq!(res.0, b"foo");
    assert_eq!(rem, []);
}

#[test]
fn de_null_bytes() {
    let data = b"$-1\r\n";
    let (res, rem) = from_bytes::<Option<Bytes>>(data).unwrap();

    assert_eq!(res, None);
    assert_eq!(rem, []);
}

#[test]
fn de_arr() {
    let data = b"*1\r\n+foo\r\n";
    let (res, rem) = from_bytes::<Vec<String>>(data).unwrap();

    assert_eq!(res, ["foo"]);
    assert_eq!(rem, []);
}

#[test]
fn de_null_arr() {
    let data = b"*-1\r\n";
    let (res, rem) = from_bytes::<Option<Vec<i64>>>(data).unwrap();

    assert_eq!(res, None);
    assert_eq!(rem, []);
}

#[test]
fn de_nested_arr() {
    let data = b"*2\r\n+foo\r\n*1\r\n$3\r\nbar\r\n";
    let (res, rem) = from_bytes::<(String, Vec<Bytes>)>(data).unwrap();

    assert_eq!(res, ("foo".to_string(), vec![Bytes(b"bar".to_vec())]));
    assert_eq!(rem, []);
}

#[test]
fn de_pubsub_subscribe() {
    let data = b"*3\r\n$9\r\nsubscribe\r\n$3\r\nfoo\r\n:1\r\n";
    let (res, rem) = from_bytes::<(Bytes, Bytes, usize)>(data).unwrap();

    assert_eq!(res, (Bytes(b"subscribe".to_vec()), Bytes(b"foo".to_vec()), 1));
    assert_eq!(rem, []);
}

#[test]
fn de_data_str() {
    let bytes = b"+OK\r\n";
    let (data, rem) = from_bytes::<Data>(bytes).unwrap();

    assert_eq!(data, Data::SimpleString("OK".into()));
    assert_eq!(rem, []);
}

#[test]
fn de_data_err() {
    let bytes = b"-Error\r\n";
    let err = from_bytes::<Data>(bytes).unwrap_err();

    match err.data {
        Error::Redis(msg) if msg == "Error" => {}
        _ => panic!(),
    }
}

#[test]
fn de_data_int() {
    let bytes = b":123\r\n";
    let (data, rem) = from_bytes::<Data>(bytes).unwrap();

    assert_eq!(data, Data::Integer(123));
    assert_eq!(rem, []);
}

#[test]
fn de_data_bulk_str() {
    let bytes = b"$3\r\nfoo\r\n";
    let (data, rem) = from_bytes::<Data>(bytes).unwrap();

    assert_eq!(data, Data::bulk_string(b"foo"));
    assert_eq!(rem, []);
}

#[test]
fn de_data_arr() {
    let bytes = b"*2\r\n$5\r\nhello\r\n$5\r\nworld\r\n";
    let (data, rem) = from_bytes::<Data>(bytes).unwrap();

    assert_eq!(
        data,
        Data::Array(vec![Data::bulk_string(b"hello"), Data::bulk_string(b"world")])
    );
    assert_eq!(rem, []);
}

#[test]
fn de_mapping_errors() {
    let err = from_bytes::<u8>(b":300\r\n").unwrap_err();
    assert!(matches!(err.data, Error::Message(_)));
    assert!(err.remaining.is_empty());
    let err = from_bytes::<(String, String)>(b"*1\r\n+a\r\n").unwrap_err();
    assert!(matches!(err.data, Error::Message(_)));
    let (n, _) = from_bytes::<i64>(b"$2\r\n42\r\n").unwrap();
    assert_eq!(n, 42);
}

#[test]
fn de_incomplete_keeps_input() {
    let err = from_bytes::<Data>(b"*2\r\n+a\r\n").unwrap_err();
    assert!(matches!(err.data, Error::Parse(ParseError::Incomplete(None))));
    assert_eq!(err.remaining, b"*2\r\n+a\r\n");
}

#[test]
fn de_error_inside_array() {
    let err = from_bytes::<Data>(b"*2\r\n-ERR x\r\n+a\r\n").unwrap_err();
    assert!(matches!(err.data, Error::Redis(ref m) if m == "ERR x"));
    assert_eq!(err.remaining, b"+a\r\n");
}

#[test]
fn deserializer_steps() {
    let mut de = Deserializer { input: b"*2\r\n+3\r\n$2\r\nhi\r\n-oops\r\n" };
    assert_eq!(de.parse_array_len(2).unwrap(), 2);
    assert_eq!(de.parse_int().unwrap(), 3);
    assert_eq!(de.parse_str().unwrap(), "hi");
    assert!(matches!(de.parse_bytes(), Err(Error::Redis(ref m)) if m == "oops"));
    assert!(de.input.is_empty());
    let mut de = Deserializer { input: b"*3\r\n" };
    assert!(matches!(de.parse_array_len(2), Err(Error::Message(_))));
    let mut de = Deserializer { input: b"+x\r\n" };
    assert!(de.check_error().is_ok());
    assert_eq!(de.input, b"+x\r\n");
}

#[test]
fn depth_limit() {
    let mut nested = Vec::new();
    for _ in 0..129 {
        nested.extend_from_slice(b"*1\r\n");
    }
    nested.extend_from_slice(b":1\r\n");
    let err = from_bytes::<Data>(&nested).unwrap_err();
    assert!(matches!(err.data, Error::Parse(ParseError::Invalid(_))));
    let ok = &nested[4..];
    assert!(from_bytes::<Data>(ok).is_ok());
}

#[test]
fn de_map() {
    let data = b"*2\r\n+foo\r\n*1\r\n$3\r\nbar\r\n";
    let (res, rem) = from_bytes::<Pairs<String, Vec<Bytes>>>(data).unwrap();

    let exp = Pairs(vec![("foo".to_string(), vec![Bytes(b"bar".to_vec())])]);

    assert_eq!(res, exp);
    assert_eq!(rem, []);
}

#[test]
fn de_map_odd_length() {
    let err = from_bytes::<Pairs<String, String>>(b"*1\r\n+foo\r\n").unwrap_err();
    assert!(matches!(err.data, Error::Message(_)));
}
