use bytes::BytesMut;
use redust::{from_bytes, from_data, to_bytes, to_data, Bytes, Codec, Data, Error, Pairs, Variant};

fn samples() -> Vec<Data> {
    vec![
        Data::simple_string("OK"),
        Data::simple_string("héllo wörld"),
        Data::Integer(0),
        Data::Integer(-1),
        Data::Integer(i64::MAX),
        Data::bulk_string(b""),
        Data::bulk_string(b"bin\r\n\x00\xff"),
        Data::Null,
        Data::Array(vec![]),
        Data::Array(vec![
            Data::Integer(7),
            Data::Array(vec![Data::Null, Data::bulk_string(b"x"), Data::Array(vec![])]),
            Data::simple_string("y"),
        ]),
    ]
}

#[test]
fn round_trip_values() {
    for d in samples() {
        let mut bytes = Vec::new();
        to_bytes(&d, &mut bytes);
        let (back, rem) = from_bytes::<Data>(&bytes).unwrap();
        assert_eq!(back, d);
        assert!(rem.is_empty());
    }
}

#[test]
fn round_trip_deep_nesting() {
    let mut d = Data::Integer(5);
    for _ in 0..127 {
        d = Data::Array(vec![d]);
    }
    let mut bytes = Vec::new();
    to_bytes(&d, &mut bytes);
    let (back, rem) = from_bytes::<Data>(&bytes).unwrap();
    assert_eq!(back, d);
    assert!(rem.is_empty());
}

#[test]
fn null_reencoded_as_bulk() {
    let (d, _) = from_bytes::<Data>(b"*-1\r\n").unwrap();
    assert_eq!(d, Data::Null);
    let mut out = Vec::new();
    to_bytes(&d, &mut out);
    assert_eq!(out, b"$-1\r\n");
}

#[test]
fn chunk_invariance_every_split() {
    let frames = samples();
    let mut all = Vec::new();
    for d in &frames {
        to_bytes(d, &mut all);
    }
    for size in 1..=all.len() {
        let mut codec = Codec;
        let mut buf = BytesMut::new();
        let mut got = Vec::new();
        for chunk in all.chunks(size) {
            buf.extend_from_slice(chunk);
            while let Some(item) = codec.decode(&mut buf).unwrap() {
                got.push(item.unwrap());
            }
        }
        assert_eq!(got, frames);
        assert!(buf.is_empty());
    }
}

#[test]
fn typed_to_data() {
    assert_eq!(to_data(&42i64).unwrap(), Data::Integer(42));
    assert_eq!(to_data(&(i64::MAX as u64)).unwrap(), Data::Integer(i64::MAX));
    assert!(matches!(to_data(&u64::MAX), Err(Error::Message(_))));
    assert_eq!(to_data(&"hi".to_string()).unwrap(), Data::simple_string("hi"));
    assert_eq!(to_data(&Bytes(b"ab".to_vec())).unwrap(), Data::bulk_string(b"ab"));
    assert_eq!(
        to_data(&vec![Some(1i64), None]).unwrap(),
        Data::Array(vec![Data::Integer(1), Data::Null])
    );
    assert_eq!(
        to_data(&("k".to_string(), 2u64)).unwrap(),
        Data::Array(vec![Data::simple_string("k"), Data::Integer(2)])
    );
    assert!(to_data(&vec![1u64, u64::MAX]).is_err());
}

#[test]
fn typed_widths_and_writing() {
    assert_eq!(from_data::<i8>(Data::Integer(-128)).unwrap(), -128);
    assert!(from_data::<i8>(Data::Integer(128)).is_err());
    assert_eq!(from_data::<i16>(Data::Integer(-300)).unwrap(), -300);
    assert_eq!(from_data::<i32>(Data::simple_string("70000")).unwrap(), 70000);
    assert!(from_data::<u16>(Data::Integer(-1)).is_err());
    assert_eq!(from_data::<u32>(Data::Integer(4294967295)).unwrap(), u32::MAX);
    assert!(from_data::<u32>(Data::Integer(4294967296)).is_err());
    assert_eq!(to_data(&true).unwrap(), Data::simple_string("true"));
    assert_eq!(to_data(&false).unwrap(), Data::simple_string("false"));
    let pairs = Pairs(vec![("a".to_string(), 1i64), ("b".to_string(), 2i64)]);
    assert_eq!(
        to_data(&pairs).unwrap(),
        Data::Array(vec![
            Data::simple_string("a"),
            Data::Integer(1),
            Data::simple_string("b"),
            Data::Integer(2)
        ])
    );
    assert!(to_data(&Pairs(vec![(1i64, u64::MAX)])).is_err());
    let v = Variant { name: "Set".to_string(), payload: 5i64 };
    assert_eq!(
        to_data(&v).unwrap(),
        Data::Array(vec![Data::simple_string("Set"), Data::Integer(5)])
    );
}
