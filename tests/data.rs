use redust::{from_data, Bytes, Data};

#[test]
fn to_str() {
    let res = from_data::<String>(Data::simple_string("foo")).unwrap();
    assert_eq!(res, "foo");
}

#[test]
fn to_bytes() {
    let res = from_data::<Bytes>(Data::bulk_string(b"foo")).unwrap();
    assert_eq!(res.0, b"foo");
}

#[test]
fn to_arr() {
    let res = from_data::<Vec<String>>(Data::Array(vec![Data::simple_string("foo")])).unwrap();
    assert_eq!(res, vec!["foo"]);
}

#[test]
fn to_int() {
    let res = from_data::<isize>(Data::Integer(42)).unwrap();
    assert_eq!(res, 42);
}

#[test]
fn data_equality_and_clone() {
    let a = Data::Array(vec![Data::Integer(1), Data::simple_string("x"), Data::Null]);
    let b = a.clone();
    assert_eq!(a, b);
    assert_ne!(a, Data::Array(vec![Data::Integer(1)]));
    assert_ne!(Data::simple_string("x"), Data::bulk_string(b"x"));
    assert_eq!(a.clone().into_owned(), a);
}

#[test]
fn command_frame() {
    let args: [&[u8]; 2] = [b"PING", b"foo"];
    let d = Data::from_bytes_iter(&args);
    assert_eq!(d, Data::Array(vec![Data::bulk_string(b"PING"), Data::bulk_string(b"foo")]));
    assert_eq!(Data::from_bytes(b"x"), Data::BulkString(b"x".to_vec()));
}

#[test]
fn conversions_into_data() {
    assert_eq!(Data::from(5i64), Data::Integer(5));
    assert_eq!(Data::from("OK".to_string()), Data::simple_string("OK"));
    assert_eq!(Data::from(b"ab".to_vec()), Data::bulk_string(b"ab"));
    assert_eq!(
        Data::from(vec![Data::Null, Data::Integer(1)]),
        Data::Array(vec![Data::Null, Data::Integer(1)])
    );
}

#[test]
fn borrowed_conversions_into_data() {
    assert_eq!(Data::from("PONG"), Data::simple_string("PONG"));
    assert_eq!(Data::from(&b"foo"[..]), Data::bulk_string(b"foo"));
    assert_eq!(Data::from(()), Data::Null);
}
