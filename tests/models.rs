use redust::model::pubsub::{Message, Response, Subscription};
use redust::model::stream::{AutoclaimResponse, Entries, Entry, Field, Id, ReadResponse, Value};
use redust::{from_bytes, from_data, Data};

#[test]
fn model_stream_read() {
    let data = Data::Array(vec![Data::Array(vec![
        Data::BulkString(b"foo"[..].into()),
        Data::Array(vec![Data::Array(vec![
            Data::BulkString(b"1-0"[..].into()),
            Data::Array(vec![
                Data::BulkString(b"abc"[..].into()),
                Data::BulkString(b"def"[..].into()),
            ]),
        ])]),
    ])]);

    let resp = ReadResponse::try_from_data(data).expect("read data");
    assert_eq!(
        resp.get(b"foo").unwrap().get(&Id(1, 0)).unwrap().get(b"abc").unwrap(),
        &Value(b"def"[..].into())
    );
}

#[test]
fn nested_stream_read_bytes() {
    let body = b"*1\r\n*2\r\n$4\r\nfoo1\r\n*1\r\n*2\r\n$3\r\n1-0\r\n*2\r\n$3\r\nfoo\r\n$3\r\nbar\r\n";
    let (resp, rem) = from_bytes::<ReadResponse>(body).unwrap();
    assert!(rem.is_empty());
    assert_eq!(resp.0.len(), 1);
    let entries = resp.get(b"foo1").unwrap();
    assert_eq!(entries.0.len(), 1);
    let entry = entries.get(&Id(1, 0)).unwrap();
    assert_eq!(entry.0.len(), 1);
    assert_eq!(entry.get(b"foo").unwrap().0, b"bar");
}

#[test]
fn stream_read_rejects_odd_fields() {
    let data = Data::Array(vec![Data::Array(vec![
        Data::bulk_string(b"k"),
        Data::Array(vec![Data::Array(vec![
            Data::bulk_string(b"1-0"),
            Data::Array(vec![Data::bulk_string(b"abc")]),
        ])]),
    ])]);
    assert!(ReadResponse::try_from_data(data).is_none());
    assert!(ReadResponse::try_from_data(Data::Null).is_none());
}

#[test]
fn subscribe() {
    let body = b"*3\r\n$9\r\nsubscribe\r\n$3\r\nfoo\r\n:1\r\n";

    let (res, rem) = from_bytes::<Response>(body).unwrap();
    assert_eq!(
        res,
        Response::Subscribe(Subscription {
            count: 1,
            name: b"foo"[..].into(),
        })
    );
    assert_eq!(rem, []);
    match res {
        Response::Subscribe(s) => assert!(s.is_in_pubsub_mode()),
        _ => panic!(),
    }
}

#[test]
fn pubsub_shapes() {
    let (res, _) = from_bytes::<Response>(b"*3\r\n$11\r\nunsubscribe\r\n$3\r\nfoo\r\n:0\r\n").unwrap();
    match res {
        Response::Unsubscribe(s) => {
            assert_eq!(s.name, b"foo");
            assert!(!s.is_in_pubsub_mode());
        }
        _ => panic!(),
    }
    let (res, _) = from_bytes::<Response>(b"*3\r\n$7\r\nmessage\r\n$2\r\nch\r\n$2\r\nhi\r\n").unwrap();
    assert_eq!(
        res,
        Response::Message(Message { pattern: None, channel: b"ch".to_vec(), data: b"hi".to_vec() })
    );
    let (res, _) =
        from_bytes::<Response>(b"*4\r\n$8\r\npmessage\r\n$2\r\nc*\r\n$2\r\nch\r\n$2\r\nhi\r\n").unwrap();
    assert_eq!(
        res,
        Response::Message(Message {
            pattern: Some(b"c*".to_vec()),
            channel: b"ch".to_vec(),
            data: b"hi".to_vec()
        })
    );
    assert!(from_bytes::<Response>(b"*3\r\n$5\r\nother\r\n$2\r\nch\r\n:1\r\n").is_err());
    assert!(from_bytes::<Response>(b"*2\r\n$9\r\nsubscribe\r\n$3\r\nfoo\r\n").is_err());
}

#[test]
fn de() {
    let data =
        b"*3\r\n+0-0\r\n*1\r\n*2\r\n+1234-5678\r\n*2\r\n$5\r\nfield\r\n$5\r\nvalue\r\n*0\r\n";

    let (res, rem) = from_bytes::<AutoclaimResponse>(data).unwrap();
    let mut entries = Entries::default();
    let mut entry = Entry::new();

    let field = Field(b"field"[..].into());
    let value = Value(b"value"[..].into());
    entry.insert(field, value);

    entries.insert(Id(1234, 5678), entry);

    assert_eq!(res, AutoclaimResponse(Id(0, 0), entries, Vec::new()));
    assert_eq!(rem, []);
}

#[test]
fn autoclaim_two_elements() {
    let data = b"*2\r\n+0-0\r\n*0\r\n";
    let (res, _) = from_bytes::<AutoclaimResponse>(data).unwrap();
    assert_eq!(res, AutoclaimResponse(Id(0, 0), Entries::default(), Vec::new()));
    assert!(from_bytes::<AutoclaimResponse>(b"*1\r\n+0-0\r\n").is_err());
}

#[test]
fn id_parse() {
    assert_eq!(Id::parse("1526985054069-0"), Some(Id(1526985054069, 0)));
    assert_eq!(Id::parse("18446744073709551615-1"), Some(Id(u64::MAX, 1)));
    assert_eq!(Id::parse("18446744073709551616-1"), None);
    assert_eq!(Id::parse("12"), None);
    assert_eq!(Id::parse("a-1"), None);
    assert_eq!(Id::parse("1-"), None);
    assert_eq!(Id::try_from_data(Data::bulk_string(b"3-4")), Some(Id(3, 4)));
    assert_eq!(Id::try_from_data(Data::Integer(3)), None);
}

#[test]
fn entry_insert_replaces() {
    let mut e = Entry::new();
    e.insert(Field(b"a".to_vec()), Value(b"1".to_vec()));
    e.insert(Field(b"b".to_vec()), Value(b"2".to_vec()));
    e.insert(Field(b"a".to_vec()), Value(b"3".to_vec()));
    assert_eq!(e.0.len(), 2);
    assert_eq!(e.get(b"a").unwrap().0, b"3");
    assert!(e.get(b"c").is_none());
}

#[test]
fn id_to_bytes_round_trip() {
    let id = Id(1526985054069, 7);
    assert_eq!(id.to_bytes(), b"1526985054069-7");
    assert_eq!(Id::parse_bytes(&id.to_bytes()), Some(id));
    assert_eq!(Id(0, 0).to_bytes(), b"0-0");
    assert_eq!(redust::to_data(&Id(3, 4)).unwrap(), Data::bulk_string(b"3-4"));
}

#[test]
fn read_stream_read() {
    let data = Data::Array(vec![Data::Array(vec![
        Data::BulkString(b"foo"[..].into()),
        Data::Array(vec![Data::Array(vec![
            Data::BulkString(b"1-0"[..].into()),
            Data::Array(vec![
                Data::BulkString(b"abc"[..].into()),
                Data::BulkString(b"def"[..].into()),
            ]),
        ])]),
    ])]);

    let resp: ReadResponse = from_data(data).expect("read data");
    assert_eq!(
        resp.get(b"foo").unwrap().get(&Id(1, 0)).unwrap().get(b"abc").unwrap(),
        &Value(b"def"[..].into())
    );
}

#[test]
fn stream_read_needs_bulk_strings() {
    let simple_field = Data::Array(vec![Data::Array(vec![
        Data::bulk_string(b"foo"),
        Data::Array(vec![Data::Array(vec![
            Data::bulk_string(b"1-0"),
            Data::Array(vec![Data::simple_string("abc"), Data::bulk_string(b"def")]),
        ])]),
    ])]);
    assert!(ReadResponse::try_from_data(simple_field).is_none());
    let simple_key = Data::Array(vec![Data::Array(vec![
        Data::simple_string("foo"),
        Data::Array(vec![]),
    ])]);
    assert!(ReadResponse::try_from_data(simple_key).is_none());
    let simple_id = Data::Array(vec![Data::Array(vec![
        Data::bulk_string(b"foo"),
        Data::Array(vec![Data::Array(vec![
            Data::simple_string("1-0"),
            Data::Array(vec![Data::bulk_string(b"abc"), Data::bulk_string(b"def")]),
        ])]),
    ])]);
    assert!(ReadResponse::try_from_data(simple_id).is_some());
}

#[test]
fn pubsub_needs_bulk_strings() {
    assert!(from_bytes::<Response>(b"*3\r\n+subscribe\r\n$3\r\nfoo\r\n:1\r\n").is_err());
    assert!(from_bytes::<Response>(b"*3\r\n$9\r\nsubscribe\r\n+foo\r\n:1\r\n").is_err());
    assert!(from_bytes::<Response>(b"*3\r\n$7\r\nmessage\r\n$2\r\nch\r\n+hi\r\n").is_err());
}
